//! The values the process is started with.

use vstd::prelude::*;

verus! {

/// The served directory, the listening port, the shared secret and the log
/// filter. Built once at start and handed to whoever needs it.
pub struct Config {
    file_dir: String,
    port: String,
    password: String,
    rust_log: String,
}

/// The four settings as texts.
pub struct ConfigView {
    pub file_dir: Seq<char>,
    pub port: Seq<char>,
    pub password: Seq<char>,
    pub rust_log: Seq<char>,
}

impl View for Config {
    type V = ConfigView;

    closed spec fn view(&self) -> ConfigView {
        ConfigView {
            file_dir: self.file_dir@,
            port: self.port@,
            password: self.password@,
            rust_log: self.rust_log@,
        }
    }
}

/// A setting that was given, or else its default.
pub open spec fn or_default(given: Option<String>, default: Seq<char>) -> Seq<char> {
    match given {
        Some(v) => v@,
        None => default,
    }
}

fn value_or(given: Option<String>, default: &str) -> (r: String)
    ensures
        r@ == or_default(given, default@),
{
    match given {
        Some(v) => v,
        None => default.to_owned(),
    }
}

impl Config {
    /// The configuration from the four settings as they were looked up.
    /// A missing one takes its default: `master`, `3000`, the empty
    /// password, `info`.
    pub fn from_lookup(
        file_dir: Option<String>,
        port: Option<String>,
        password: Option<String>,
        rust_log: Option<String>,
    ) -> (r: Config)
        ensures
            r@.file_dir == or_default(file_dir, "master"@),
            r@.port == or_default(port, "3000"@),
            r@.password == or_default(password, ""@),
            r@.rust_log == or_default(rust_log, "info"@),
    {
        Config {
            file_dir: value_or(file_dir, "master"),
            port: value_or(port, "3000"),
            password: value_or(password, ""),
            rust_log: value_or(rust_log, "info"),
        }
    }

    pub fn file_dir(&self) -> (r: &str)
        ensures
            r@ == self@.file_dir,
    {
        self.file_dir.as_str()
    }

    pub fn port(&self) -> (r: &str)
        ensures
            r@ == self@.port,
    {
        self.port.as_str()
    }

    pub fn password(&self) -> (r: &str)
        ensures
            r@ == self@.password,
    {
        self.password.as_str()
    }

    pub fn rust_log(&self) -> (r: &str)
        ensures
            r@ == self@.rust_log,
    {
        self.rust_log.as_str()
    }
}

} // verus!
