//! Indexing and query precomputation for a structured personal-history
//! document: bidirectional lookup indices between skills, projects and
//! experiences, and the answers to every supported query over them.

pub mod clusters;
pub mod generator;
pub mod id_map;
pub mod index;
pub mod model;
pub mod protocol;
pub mod text;

pub use clusters::find_skill_clusters;
pub use generator::StaticGenerator;
pub use id_map::IdMap;
pub use index::{build_index, ResumeIndex};
pub use model::{Config, Experience, PersonalInfo, Project, Resume, Skill, Timestamp};
pub use protocol::{MCPResource, MCPResourceContent, MCPServerInfo, MCPToolContent, MCPToolResult};
