//! The document: personal details, experiences, projects and skills.
use std::collections::HashMap;
use vstd::prelude::*;

verus! {

/// An instant in UTC, as seconds and nanoseconds since the Unix epoch.
/// Experiences carry their dates through unchanged: nothing here reads them.
#[derive(Debug, Clone, Copy, PartialEq, Eq)]
pub struct Timestamp {
    pub seconds: i64,
    /// Below one second: less than 1_000_000_000.
    pub nanos: u32,
}

/// Contact details of the document's subject.
#[derive(Debug, Clone)]
pub struct PersonalInfo {
    pub name: String,
    pub location: String,
    pub phone_number: String,
    pub email: String,
    /// Link label to URL.
    pub links: HashMap<String, String>,
}

/// A period of employment and the projects it took part in.
#[derive(Debug, Clone)]
pub struct Experience {
    pub id: String,
    pub title: String,
    pub start_date: Timestamp,
    /// `None` while the experience is ongoing.
    pub end_date: Option<Timestamp>,
    /// Ids of the projects, in the order listed.
    pub projects: Vec<String>,
}

/// A project and the skills it used.
#[derive(Debug, Clone)]
pub struct Project {
    pub id: String,
    pub title: String,
    pub duration: Option<String>,
    pub description: String,
    /// Ids of the skills, in the order listed.
    pub skills: Vec<String>,
}

/// A skill with its display name and tags.
#[derive(Debug, Clone)]
pub struct Skill {
    pub id: String,
    pub name: String,
    pub skill_type: String,
    pub category: String,
}

/// The whole document.
#[derive(Debug, Clone)]
pub struct Resume {
    pub info: PersonalInfo,
    pub experiences: Vec<Experience>,
    pub projects: Vec<Project>,
    pub skills: Vec<Skill>,
}

/// The input file's top level.
#[derive(Debug, Clone)]
pub struct Config {
    pub resume: Resume,
}

/// The character views of a sequence of strings.
pub open spec fn views(s: Seq<String>) -> Seq<Seq<char>> {
    s.map_values(|x: String| x@)
}

impl Experience {
    /// The experience's id.
    pub open spec fn key(self) -> Seq<char> {
        self.id@
    }

    /// The ids of the projects it lists, in order.
    pub open spec fn listed(self) -> Seq<Seq<char>> {
        views(self.projects@)
    }
}

impl Project {
    /// The project's id.
    pub open spec fn key(self) -> Seq<char> {
        self.id@
    }

    /// The ids of the skills it lists, in order.
    pub open spec fn listed(self) -> Seq<Seq<char>> {
        views(self.skills@)
    }
}

impl Skill {
    /// The skill's id.
    pub open spec fn key(self) -> Seq<char> {
        self.id@
    }
}

} // verus!
