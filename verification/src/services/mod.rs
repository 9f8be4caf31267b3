//! What stands around the repository: branches, the decisions of the
//! command line, the security stub and the state of the status page.

pub mod branch_service;
pub mod cli_service;
pub mod security_service;
pub mod web_service;

pub use branch_service::{BranchInfo, BranchService};
pub use cli_service::CliService;
pub use security_service::{SecurityConfig, SecurityService, UserConfig, UserKeyPair};
pub use web_service::{WebServiceConfig, WebState};
