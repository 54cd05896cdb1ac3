use resume_smg::{
    build_index, Experience, PersonalInfo, Project, Resume, Skill, StaticGenerator, Timestamp,
};
use std::collections::HashMap;
use tempfile::TempDir;

fn at(seconds: i64) -> Timestamp {
    Timestamp { seconds, nanos: 0 }
}

fn create_test_resume() -> Resume {
    let mut links = HashMap::new();
    links.insert("github".to_string(), "https://github.com/testuser".to_string());
    links.insert("linkedin".to_string(), "https://linkedin.com/in/testuser".to_string());

    Resume {
        info: PersonalInfo {
            name: "Test User".to_string(),
            location: "San Francisco, CA".to_string(),
            phone_number: "+1-555-0123".to_string(),
            email: "test@example.com".to_string(),
            links,
        },
        experiences: vec![
            Experience {
                id: "exp1".to_string(),
                title: "Senior Software Engineer".to_string(),
                // 2022-01-01T00:00:00Z
                start_date: at(1640995200),
                end_date: None,
                projects: vec!["proj1".to_string(), "proj2".to_string()],
            },
            Experience {
                id: "exp2".to_string(),
                title: "Software Engineer".to_string(),
                // 2020-01-01T00:00:00Z
                start_date: at(1577836800),
                // 2021-12-31T23:59:59Z
                end_date: Some(at(1640995199)),
                projects: vec!["proj3".to_string()],
            },
        ],
        projects: vec![
            Project {
                id: "proj1".to_string(),
                title: "E-commerce Platform".to_string(),
                duration: Some("8 months".to_string()),
                description: "Built scalable e-commerce platform with microservices".to_string(),
                skills: vec!["rust".to_string(), "postgresql".to_string(), "docker".to_string()],
            },
            Project {
                id: "proj2".to_string(),
                title: "Data Pipeline".to_string(),
                duration: Some("4 months".to_string()),
                description: "Real-time data processing pipeline".to_string(),
                skills: vec!["rust".to_string(), "kafka".to_string(), "redis".to_string()],
            },
            Project {
                id: "proj3".to_string(),
                title: "Mobile App Backend".to_string(),
                duration: Some("6 months".to_string()),
                description: "REST API for mobile application".to_string(),
                skills: vec!["python".to_string(), "postgresql".to_string(), "docker".to_string()],
            },
        ],
        skills: vec![
            Skill {
                id: "rust".to_string(),
                name: "Rust".to_string(),
                skill_type: "programming_language".to_string(),
                category: "backend".to_string(),
            },
            Skill {
                id: "python".to_string(),
                name: "Python".to_string(),
                skill_type: "programming_language".to_string(),
                category: "backend".to_string(),
            },
            Skill {
                id: "postgresql".to_string(),
                name: "PostgreSQL".to_string(),
                skill_type: "database".to_string(),
                category: "backend".to_string(),
            },
            Skill {
                id: "docker".to_string(),
                name: "Docker".to_string(),
                skill_type: "tool".to_string(),
                category: "devops".to_string(),
            },
            Skill {
                id: "kafka".to_string(),
                name: "Apache Kafka".to_string(),
                skill_type: "message_queue".to_string(),
                category: "backend".to_string(),
            },
            Skill {
                id: "redis".to_string(),
                name: "Redis".to_string(),
                skill_type: "database".to_string(),
                category: "backend".to_string(),
            },
        ],
    }
}

#[test]
fn test_build_index() {
    let resume = create_test_resume();
    let index = build_index(&resume);

    assert!(index.skill_to_projects.contains_key("rust"));
    assert!(index.skill_to_projects.contains_key("postgresql"));
    assert!(index.skill_to_projects.contains_key("docker"));

    let rust_projects = index.skill_to_projects.get("rust").unwrap();
    assert_eq!(rust_projects.len(), 2);
    assert!(rust_projects.contains(&"proj1".to_string()));
    assert!(rust_projects.contains(&"proj2".to_string()));

    assert!(index.skill_to_experiences.contains_key("rust"));
    let rust_experiences = index.skill_to_experiences.get("rust").unwrap();
    assert_eq!(rust_experiences.len(), 1);
    assert!(rust_experiences.contains(&"exp1".to_string()));

    assert!(index.project_to_experiences.contains_key("proj1"));
    assert!(index.project_to_experiences.contains_key("proj3"));

    let proj1_experiences = index.project_to_experiences.get("proj1").unwrap();
    assert_eq!(proj1_experiences.len(), 1);
    assert!(proj1_experiences.contains(&"exp1".to_string()));

    assert_eq!(index.experience_lookup.len(), 2);
    assert_eq!(index.project_lookup.len(), 3);
    assert_eq!(index.skill_lookup.len(), 6);
}

#[test]
fn test_static_generator_creation() {
    let resume = create_test_resume();
    let temp_dir = TempDir::new().expect("Failed to create temp directory");
    let output_path = temp_dir.path().to_str().unwrap().to_string();

    let generator = StaticGenerator::new(resume.clone(), output_path);

    assert_eq!(generator.resume.info.name, resume.info.name);
    assert_eq!(generator.resume.experiences.len(), resume.experiences.len());
    assert_eq!(generator.resume.projects.len(), resume.projects.len());
    assert_eq!(generator.resume.skills.len(), resume.skills.len());
}

#[test]
fn skills_for_project_in_list_order() {
    let generator = StaticGenerator::new(create_test_resume(), "out".to_string());
    let skills = generator.skills_for_project("proj1");
    let names: Vec<&str> = skills.iter().map(|s| s.name.as_str()).collect();
    assert_eq!(names, vec!["Rust", "PostgreSQL", "Docker"]);
}

#[test]
fn projects_using_skill_in_document_order() {
    let generator = StaticGenerator::new(create_test_resume(), "out".to_string());
    let projects = generator.projects_using_skill("rust");
    let ids: Vec<&str> = projects.iter().map(|p| p.id.as_str()).collect();
    assert_eq!(ids, vec!["proj1", "proj2"]);
    assert!(generator.projects_using_skill("cobol").is_empty());
}

#[test]
fn experiences_using_skill_resolved() {
    let generator = StaticGenerator::new(create_test_resume(), "out".to_string());
    let experiences = generator.experiences_using_skill("postgresql");
    let ids: Vec<&str> = experiences.iter().map(|e| e.id.as_str()).collect();
    assert_eq!(ids, vec!["exp1", "exp2"]);
    let kafka = generator.experiences_using_skill("kafka");
    assert_eq!(kafka.len(), 1);
    assert_eq!(kafka[0].title, "Senior Software Engineer");
}

#[test]
fn shared_skills_of_two_projects() {
    let generator = StaticGenerator::new(create_test_resume(), "out".to_string());
    let shared = generator.shared_skills("proj1", "proj3");
    let names: Vec<&str> = shared.iter().map(|s| s.name.as_str()).collect();
    // ascending by id: "docker" before "postgresql"
    assert_eq!(names, vec!["Docker", "PostgreSQL"]);
    assert!(generator.shared_skills("proj2", "proj3").is_empty());
}

#[test]
fn shared_skills_symmetric() {
    let generator = StaticGenerator::new(create_test_resume(), "out".to_string());
    let ab: Vec<String> = generator.shared_skills("proj1", "proj2").iter().map(|s| s.id.clone()).collect();
    let ba: Vec<String> = generator.shared_skills("proj2", "proj1").iter().map(|s| s.id.clone()).collect();
    assert_eq!(ab, vec!["rust".to_string()]);
    assert_eq!(ab, ba);
    let ac: Vec<String> = generator.shared_skills("proj1", "proj3").iter().map(|s| s.id.clone()).collect();
    let ca: Vec<String> = generator.shared_skills("proj3", "proj1").iter().map(|s| s.id.clone()).collect();
    assert_eq!(ac, ca);
}

#[test]
fn shared_skills_with_unknown_project() {
    let generator = StaticGenerator::new(create_test_resume(), "out".to_string());
    assert!(generator.shared_skills("proj1", "nope").is_empty());
    assert!(generator.shared_skills("nope", "proj1").is_empty());
}

#[test]
fn details_lookups() {
    let generator = StaticGenerator::new(create_test_resume(), "out".to_string());
    let exp2 = generator.experience_details("exp2").unwrap();
    assert_eq!(exp2.title, "Software Engineer");
    assert_eq!(exp2.end_date, Some(at(1640995199)));
    assert_eq!(exp2.projects, vec!["proj3".to_string()]);
    let proj1 = generator.project_details("proj1").unwrap();
    assert_eq!(proj1.title, "E-commerce Platform");
    assert_eq!(proj1.duration.as_deref(), Some("8 months"));
    assert!(generator.experience_details("exp9").is_none());
    assert!(generator.project_details("proj9").is_none());
}

#[test]
fn clusters_of_test_document() {
    let generator = StaticGenerator::new(create_test_resume(), "out".to_string());
    let clusters = generator.skill_clusters();
    assert_eq!(clusters.len(), 1);
    assert_eq!(clusters.key_at(0), "docker,postgresql");
    assert_eq!(
        clusters.get("docker,postgresql").unwrap(),
        &vec!["proj1".to_string(), "proj3".to_string()]
    );
}

#[test]
fn engine_runs_are_identical() {
    let first = StaticGenerator::new(create_test_resume(), "out".to_string());
    let second = StaticGenerator::new(create_test_resume(), "out".to_string());
    assert_eq!(format!("{:?}", first.index), format!("{:?}", second.index));
    assert_eq!(
        format!("{:?}", first.skill_clusters()),
        format!("{:?}", second.skill_clusters())
    );
    assert_eq!(
        format!("{:?}", first.shared_skills("proj1", "proj3")),
        format!("{:?}", second.shared_skills("proj1", "proj3"))
    );
}
