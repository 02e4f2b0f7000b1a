//! Discovery of code-signing development teams: parsing a PEM buffer of X.509
//! certificates, extracting each subject's organization name and
//! organizational unit, and reducing them to a sorted set of distinct teams.

pub mod error;
pub mod order;
pub mod pem;
pub mod teams;
pub mod text;

pub use error::Error;
pub use pem::find_development_teams_in_pem;
pub use pem::find_development_teams_with;
pub use teams::Certificate;
pub use teams::SubjectEntry;
pub use teams::SubjectName;
pub use teams::Team;
pub use teams::get_x509_field;
