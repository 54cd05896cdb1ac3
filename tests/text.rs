use resume_smg::clusters::combinations_of;
use resume_smg::text::{join_ids, lex_less, same_id, sort_ascending, sort_unique};

fn ids(list: &[&str]) -> Vec<String> {
    list.iter().map(|s| s.to_string()).collect()
}

#[test]
fn lexicographic_order() {
    assert!(lex_less("a", "b"));
    assert!(!lex_less("b", "a"));
    assert!(lex_less("ab", "abc"));
    assert!(!lex_less("abc", "abc"));
    assert!(lex_less("", "a"));
    assert!(lex_less("Z", "a"));
    assert!(lex_less("exp10", "exp2"));
    assert!(lex_less("z", "é"));
}

#[test]
fn id_equality() {
    assert!(same_id("rust", "rust"));
    assert!(!same_id("rust", "Rust"));
    assert!(!same_id("rust", "rus"));
    assert!(same_id("", ""));
}

#[test]
fn sort_unique_drops_repeats() {
    assert_eq!(sort_unique(&ids(&["c", "a", "c", "b", "a"])), ids(&["a", "b", "c"]));
    assert!(sort_unique(&Vec::new()).is_empty());
}

#[test]
fn sort_ascending_keeps_repeats() {
    assert_eq!(sort_ascending(&ids(&["c", "a", "c", "b"])), ids(&["a", "b", "c", "c"]));
}

#[test]
fn join_with_commas() {
    assert_eq!(join_ids(&ids(&["a", "b", "c"])), "a,b,c");
    assert_eq!(join_ids(&ids(&["solo"])), "solo");
    assert_eq!(join_ids(&Vec::new()), "");
}

#[test]
fn combinations_of_skill_lists() {
    assert!(combinations_of(&ids(&["x"])).is_empty());
    assert_eq!(combinations_of(&ids(&["y", "x"])), ids(&["x,y"]));
    assert_eq!(
        combinations_of(&ids(&["z", "x", "y"])),
        ids(&["x,z", "y,z", "x,y", "x,y,z"])
    );
    assert_eq!(
        combinations_of(&ids(&["a", "b", "c", "d"])),
        ids(&["a,b", "a,c", "a,d", "b,c", "b,d", "c,d", "a,b,c,d"])
    );
    assert_eq!(combinations_of(&ids(&["x", "x", "y"])), ids(&["x,y", "x,x,y"]));
}
