use resume_smg::{
    build_index, find_skill_clusters, Experience, MCPResourceContent, MCPToolResult,
    PersonalInfo, Project, Resume, Skill, StaticGenerator, Timestamp,
};
use std::collections::HashMap;

fn ids(list: &[&str]) -> Vec<String> {
    list.iter().map(|s| s.to_string()).collect()
}

fn project(id: &str, skills: &[&str]) -> Project {
    Project {
        id: id.to_string(),
        title: format!("Project {}", id),
        duration: None,
        description: String::new(),
        skills: ids(skills),
    }
}

fn experience(id: &str, projects: &[&str]) -> Experience {
    Experience {
        id: id.to_string(),
        title: format!("Role {}", id),
        start_date: Timestamp { seconds: 0, nanos: 0 },
        end_date: None,
        projects: ids(projects),
    }
}

fn skill(id: &str) -> Skill {
    Skill {
        id: id.to_string(),
        name: id.to_uppercase(),
        skill_type: "tool".to_string(),
        category: "misc".to_string(),
    }
}

fn document(experiences: Vec<Experience>, projects: Vec<Project>, skills: Vec<Skill>) -> Resume {
    Resume {
        info: PersonalInfo {
            name: "Someone".to_string(),
            location: String::new(),
            phone_number: String::new(),
            email: String::new(),
            links: HashMap::new(),
        },
        experiences,
        projects,
        skills,
    }
}

#[test]
fn project_references_counted_with_repeats() {
    let doc = document(
        vec![
            experience("e1", &["pa", "pa", "pb"]),
            experience("e2", &["pa"]),
        ],
        vec![project("pa", &["s"]), project("pb", &["s"])],
        vec![skill("s")],
    );
    let index = build_index(&doc);
    assert_eq!(index.project_to_experiences.get("pa").unwrap(), &ids(&["e1", "e1", "e2"]));
    assert_eq!(index.project_to_experiences.get("pb").unwrap(), &ids(&["e1"]));
    assert_eq!(index.project_to_experiences.len(), 2);
    assert_eq!(index.project_to_experiences.key_at(0), "pa");
    assert_eq!(index.project_to_experiences.key_at(1), "pb");
}

#[test]
fn skill_experiences_deduplicated_across_projects() {
    let doc = document(
        vec![experience("e1", &["pa", "pb"])],
        vec![project("pa", &["s"]), project("pb", &["s"])],
        vec![skill("s")],
    );
    let index = build_index(&doc);
    assert_eq!(index.skill_to_experiences.get("s").unwrap(), &ids(&["e1"]));
    assert_eq!(index.skill_to_projects.get("s").unwrap(), &ids(&["pa", "pb"]));
}

#[test]
fn skill_experiences_two_paths() {
    let doc = document(
        vec![experience("e1", &["pa", "pb"]), experience("e2", &["pb"])],
        vec![project("pa", &["s"]), project("pb", &["s"])],
        vec![skill("s")],
    );
    let index = build_index(&doc);
    assert_eq!(index.skill_to_experiences.get("s").unwrap(), &ids(&["e1", "e2"]));
}

#[test]
fn skill_experiences_sorted_by_code_point() {
    let doc = document(
        vec![
            experience("exp2", &["p"]),
            experience("exp10", &["p"]),
            experience("Exp3", &["p"]),
            experience("exp2", &["p"]),
        ],
        vec![project("p", &["s"])],
        vec![skill("s")],
    );
    let index = build_index(&doc);
    assert_eq!(
        index.skill_to_experiences.get("s").unwrap(),
        &ids(&["Exp3", "exp10", "exp2"])
    );
}

#[test]
fn dangling_project_reference() {
    let doc = document(
        vec![experience("e1", &["ghost", "pa"])],
        vec![project("pa", &["s"])],
        vec![skill("s")],
    );
    let generator = StaticGenerator::new(doc, "out".to_string());
    let index = &generator.index;
    assert_eq!(index.project_to_experiences.get("ghost").unwrap(), &ids(&["e1"]));
    assert_eq!(index.skill_to_experiences.len(), 1);
    assert_eq!(index.skill_to_experiences.get("s").unwrap(), &ids(&["e1"]));
    assert!(generator.skills_for_project("ghost").is_empty());
    assert!(generator.project_details("ghost").is_none());
    assert!(generator.shared_skills("ghost", "pa").is_empty());
}

#[test]
fn dangling_skill_reference_dropped() {
    let doc = document(
        vec![experience("e1", &["pa"])],
        vec![project("pa", &["a", "missing", "b"])],
        vec![skill("b"), skill("a")],
    );
    let generator = StaticGenerator::new(doc, "out".to_string());
    let skills: Vec<&str> = generator.skills_for_project("pa").iter().map(|s| s.id.as_str()).collect();
    assert_eq!(skills, vec!["a", "b"]);
    assert!(generator.index.skill_to_projects.contains_key("missing"));
    let users = generator.projects_using_skill("missing");
    assert_eq!(users.len(), 1);
    assert!(generator.experiences_using_skill("missing").len() == 1);
}

#[test]
fn duplicate_ids_last_one_wins() {
    let doc = document(
        vec![experience("e1", &["p"])],
        vec![project("p", &["a"]), project("q", &["a"]), project("p", &["b"])],
        vec![skill("a"), skill("b"), skill("a")],
    );
    let generator = StaticGenerator::new(doc, "out".to_string());
    let index = &generator.index;
    assert_eq!(index.project_lookup.len(), 2);
    assert_eq!(index.project_lookup.get("p"), Some(&2));
    assert_eq!(index.project_lookup.key_at(0), "p");
    assert_eq!(index.skill_lookup.get("a"), Some(&2));
    assert_eq!(generator.project_details("p").unwrap().skills, ids(&["b"]));
    // e1 reaches skill b through the last project named p, not skill a
    assert!(!index.skill_to_experiences.contains_key("a"));
    assert_eq!(index.skill_to_experiences.get("b").unwrap(), &ids(&["e1"]));
    assert_eq!(index.skill_to_projects.get("a").unwrap(), &ids(&["p", "q"]));
}

#[test]
fn empty_document() {
    let doc = document(vec![], vec![], vec![]);
    let generator = StaticGenerator::new(doc, "out".to_string());
    let index = &generator.index;
    assert!(index.skill_to_projects.is_empty());
    assert!(index.skill_to_experiences.is_empty());
    assert!(index.project_to_experiences.is_empty());
    assert_eq!(index.experience_lookup.len(), 0);
    assert_eq!(index.project_lookup.len(), 0);
    assert_eq!(index.skill_lookup.len(), 0);
    assert!(generator.skill_clusters().is_empty());
}

#[test]
fn single_project_has_no_cluster() {
    let clusters = find_skill_clusters(&vec![project("pa", &["x", "y", "z"])]);
    assert!(clusters.is_empty());
}

#[test]
fn shared_pair_is_a_cluster() {
    let clusters = find_skill_clusters(&vec![
        project("pa", &["x", "y", "z"]),
        project("pb", &["x", "y", "w"]),
    ]);
    assert_eq!(clusters.len(), 1);
    assert_eq!(clusters.get("x,y").unwrap(), &ids(&["pa", "pb"]));
    assert!(!clusters.contains_key("x,y,z"));
    assert!(!clusters.contains_key("x,y,w"));
}

#[test]
fn skill_clustering_with_three_projects() {
    let clusters = find_skill_clusters(&vec![
        project("proj_a", &["skill1", "skill2", "skill3"]),
        project("proj_b", &["skill1", "skill2", "skill4"]),
        project("proj_c", &["skill5"]),
    ]);
    assert!(clusters.contains_key("skill1,skill2"));
    assert_eq!(clusters.get("skill1,skill2").unwrap(), &ids(&["proj_a", "proj_b"]));
    assert!(!clusters.contains_key("skill1,skill2,skill3"));
    assert!(!clusters.contains_key("skill1,skill2,skill4"));
    for i in 0..clusters.len() {
        assert!(clusters.value_at(i).len() > 1);
    }
}

#[test]
fn whole_set_key_is_sorted() {
    let clusters = find_skill_clusters(&vec![
        project("pa", &["c", "a", "b"]),
        project("pb", &["b", "c", "a"]),
        project("pc", &["b", "a"]),
    ]);
    assert_eq!(clusters.get("a,b,c").unwrap(), &ids(&["pa", "pb"]));
    assert_eq!(clusters.get("a,b").unwrap(), &ids(&["pa", "pb", "pc"]));
    assert_eq!(clusters.get("a,c").unwrap(), &ids(&["pa", "pb"]));
    assert_eq!(clusters.get("b,c").unwrap(), &ids(&["pa", "pb"]));
    assert_eq!(clusters.len(), 4);
    assert_eq!(clusters.key_at(0), "a,c");
    assert_eq!(clusters.key_at(3), "a,b,c");
}

#[test]
fn project_counts_once_per_combination() {
    let clusters = find_skill_clusters(&vec![
        project("pa", &["x", "x", "y"]),
        project("pb", &["x", "y"]),
    ]);
    assert_eq!(clusters.get("x,y").unwrap(), &ids(&["pa", "pb"]));
    assert!(!clusters.contains_key("x,x"));
}

#[test]
fn two_skill_projects_form_pair_cluster_only() {
    let clusters = find_skill_clusters(&vec![project("pa", &["b", "a"]), project("pb", &["a", "b"])]);
    assert_eq!(clusters.len(), 1);
    assert_eq!(clusters.get("a,b").unwrap(), &ids(&["pa", "pb"]));
}

#[test]
fn tool_result_wraps_text() {
    let result = MCPToolResult::text("[1]".to_string());
    assert_eq!(result.content.len(), 1);
    assert_eq!(result.content[0].content_type, "text");
    assert_eq!(result.content[0].text, "[1]");
}

#[test]
fn resource_content_is_json() {
    let content = MCPResourceContent::json("resume://info".to_string(), "{}".to_string());
    assert_eq!(content.uri, "resume://info");
    assert_eq!(content.mime_type, "application/json");
    assert_eq!(content.text, "{}");
}
