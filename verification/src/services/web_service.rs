//! What the status page needs to know: where the repository is, and how the
//! page is served.

use vstd::prelude::*;

verus! {

/// How the status page is served.
#[derive(Debug, Clone)]
pub struct WebServiceConfig {
    /// The host to listen at.
    pub host: String,
    /// The port to listen at.
    pub port: u16,
    /// The directory of static files, where there is one.
    pub static_dir: Option<String>,
    /// Whether a login is asked for.
    pub enable_auth: bool,
}

impl Default for WebServiceConfig {
    /// The page at `127.0.0.1:8080`, without static files and without login.
    fn default() -> (config: WebServiceConfig)
        ensures
            config.host@ == "127.0.0.1"@,
            config.port == 8080,
            config.static_dir is None,
            !config.enable_auth,
    {
        WebServiceConfig {
            host: "127.0.0.1".to_owned(),
            port: 8080,
            static_dir: None,
            enable_auth: false,
        }
    }
}

impl WebServiceConfig {
    /// The address to listen at: host, colon, port.
    pub fn address(&self) -> (r: (&str, u16))
        ensures
            r.0@ == self.host@,
            r.1 == self.port,
    {
        (self.host.as_str(), self.port)
    }
}

/// The state that the handlers of the status page share.
#[derive(Debug)]
pub struct WebState {
    repo_path: String,
}

impl WebState {
    /// Where the repository is kept.
    pub closed spec fn path(&self) -> Seq<char> {
        self.repo_path@
    }

    /// The state for the repository kept at `repo_path`.
    pub fn new(repo_path: String) -> (state: WebState)
        ensures
            state.path() == repo_path@,
    {
        WebState { repo_path }
    }

    /// Where the repository is kept.
    pub fn repo_path(&self) -> (path: &str)
        ensures
            path@ == self.path(),
    {
        self.repo_path.as_str()
    }
}

} // verus!
