use std::collections::HashSet;
use xerj_autoindex::aliases::{alias_keys_to_reindex, DuplicateFile};

fn alias(file_key: &str, rel: &str) -> DuplicateFile {
    DuplicateFile {
        file_key: file_key.to_string(),
        rel: rel.to_string(),
        path_id: format!("id:{rel}"),
        duplicate_of: format!("{file_key}.txt"),
        bytes: 10,
    }
}

fn set(v: Vec<String>) -> HashSet<String> {
    let n = v.len();
    let s: HashSet<String> = v.into_iter().collect();
    assert_eq!(s.len(), n, "each key is listed once");
    s
}

#[test]
fn one_alias_change_invalidates_only_its_content_key() {
    let previous = vec![alias("a", "a-copy.txt"), alias("c", "c-copy.txt")];
    let current = vec![alias("a", "a-copy.txt"), alias("b", "b-copy.txt"), alias("c", "c-copy.txt")];
    assert_eq!(set(alias_keys_to_reindex(&previous, &current, None)), HashSet::from(["b".to_string()]));
    assert_eq!(set(alias_keys_to_reindex(&current, &previous, None)), HashSet::from(["b".to_string()]));
    let migration = vec!["a".to_string(), "b".to_string(), "c".to_string()];
    assert_eq!(
        set(alias_keys_to_reindex(&previous, &current, Some(&migration))),
        HashSet::from(["a".to_string(), "b".to_string(), "c".to_string()])
    );
}

#[test]
fn a_moved_alias_invalidates_its_key_and_unchanged_ones_do_not() {
    let previous = vec![alias("a", "x.txt"), alias("a", "y.txt"), alias("b", "z.txt")];
    let current = vec![alias("a", "y.txt"), alias("a", "w.txt"), alias("b", "z.txt")];
    assert_eq!(set(alias_keys_to_reindex(&previous, &current, None)), HashSet::from(["a".to_string()]));
    assert!(alias_keys_to_reindex(&previous, &previous, None).is_empty());
}
