use std::collections::HashSet;

use wfc::algorithm::{
    collapse_at, collapse_with, flatten_wfc_vector, get_left_neighbor, get_right_neighbor,
    get_valid_neighbors, get_valid_options_from_neighbors, is_collapsed, iterate, iterate_with,
    propagate, settle, WfcError,
};
use wfc::rules::{generate_wfc_vector, Allowed, Rules, WfcVector, END, START};

const PLACEHOLDER: &str = "";

fn strings(items: &[&str]) -> Vec<String> {
    items.iter().map(|s| s.to_string()).collect()
}

fn get_rules() -> Rules {
    let mut rules = Rules::new();
    rules.insert(START.to_string(), Allowed::new(strings(&[END]), strings(&["hello"])));
    rules.insert("hello".to_string(), Allowed::new(strings(&[START]), strings(&["world", "there"])));
    rules.insert("world".to_string(), Allowed::new(strings(&["hello"]), strings(&["!"])));
    rules.insert("there".to_string(), Allowed::new(strings(&["hello"]), strings(&[END])));
    rules.insert("!".to_string(), Allowed::new(strings(&["world"]), strings(&[END])));
    rules.insert(END.to_string(), Allowed::new(strings(&["there"]), strings(&[START])));
    rules
}

fn as_set(domain: &[String]) -> HashSet<String> {
    domain.iter().cloned().collect()
}

#[test]
fn test_get_valid_neighbors_sanity() {
    assert_eq!(get_valid_neighbors(2, 100), vec![1, 3]);
    assert_eq!(get_valid_neighbors(0, 100), vec![1]);
    assert_eq!(get_valid_neighbors(1, 2), vec![0]);
}

#[test]
fn left_and_right_neighbors() {
    assert_eq!(get_left_neighbor(0), None);
    assert_eq!(get_left_neighbor(5), Some(4));
    assert_eq!(get_right_neighbor(4, 5), None);
    assert_eq!(get_right_neighbor(3, 5), Some(4));
    assert_eq!(get_right_neighbor(0, 0), None);
}

#[test]
fn test_is_collapsed_sanity() {
    let mut vector: WfcVector = vec![strings(&["hello"]), strings(&["world"])];

    assert_eq!(is_collapsed(&vector), true);

    vector[0].push(String::new());

    assert_eq!(is_collapsed(&vector), false);
}

#[test]
fn test_collapse_at_sanity() {
    let mut vector: WfcVector = vec![strings(&["hello", "world", "test"]), strings(&["world"])];
    assert_ne!(vector[0].len(), 1);

    collapse_at(&mut vector, 0).unwrap();

    assert_eq!(vector[0].len(), 1);
}

#[test]
fn collapse_at_returns_a_member_and_leaves_the_rest() {
    let before = strings(&["hello", "world", "test"]);
    let mut vector: WfcVector = vec![before.clone(), strings(&["world"])];
    let token = collapse_at(&mut vector, 0).unwrap();
    assert!(before.contains(&token));
    assert_eq!(vector[0], vec![token]);
    assert_eq!(vector[1], strings(&["world"]));
}

#[test]
fn test_collapse_at_empty_set() {
    let mut vector: WfcVector = vec![vec![]];

    let result = collapse_at(&mut vector, 0);

    assert_eq!(result.map_err(|e| e.message()), Err("Set was empty"));
}

#[test]
fn test_collapse_at_invalid_index() {
    let mut vector: WfcVector = vec![];

    let result = collapse_at(&mut vector, 100);

    assert_eq!(result.map_err(|e| e.message()), Err("Index was out of range"));
}

#[test]
fn collapse_with_takes_the_picked_candidate() {
    let mut vector: WfcVector = vec![strings(&["a", "b", "c"])];
    assert_eq!(collapse_with(&mut vector, 0, 4), Ok("b".to_string()));
    assert_eq!(vector, vec![strings(&["b"])]);
    let mut vector: WfcVector = vec![strings(&["a"])];
    assert_eq!(collapse_with(&mut vector, 1, 0), Err(WfcError::OutOfRange));
    let mut vector: WfcVector = vec![vec![]];
    assert_eq!(collapse_with(&mut vector, 0, 0), Err(WfcError::EmptyDomain));
}

#[test]
fn test_flatten_wfc_vector_sanity() {
    let vector: WfcVector = vec![strings(&["hello"]), strings(&["world"])];
    let result: Vec<String> = vec!["hello".to_string(), "world".to_string()];

    assert_eq!(flatten_wfc_vector(vector), Ok(result))
}

#[test]
fn test_flatten_wfc_vector_error() {
    let vector: WfcVector = vec![strings(&["hello", "world", "test"]), strings(&["world"])];

    let result = flatten_wfc_vector(vector);
    assert_eq!(result.map_err(|e| e.message()), Err("Set has more than one string!"))
}

#[test]
fn flatten_rejects_an_empty_domain() {
    let vector: WfcVector = vec![strings(&["hello"]), vec![]];
    assert_eq!(flatten_wfc_vector(vector), Err(WfcError::AmbiguousDomain));
}

#[test]
fn test_get_valid_options_from_neighbors_sanity() {
    let rules = get_rules();
    let vector: WfcVector = vec![strings(&["hello"]), rules.keys(), strings(&["!", END])];
    let result = get_valid_options_from_neighbors(&vector, &rules, 1);

    assert_eq!(result.len(), 2);
    assert!(result.contains(&"world".to_string()));
    assert!(result.contains(&"there".to_string()));
}

#[test]
fn test_get_valid_options_from_neighbors_impossible() {
    let rules = get_rules();
    let vector: WfcVector = vec![strings(&["!"]), rules.keys(), strings(&[END])];
    let result = get_valid_options_from_neighbors(&vector, &rules, 1);

    assert_eq!(result.len(), 1);
    assert_eq!(result.into_iter().next().unwrap(), PLACEHOLDER);
}

#[test]
fn test_propagate_sanity() {
    let rules = get_rules();
    let mut vector: WfcVector = vec![
        strings(&[START]),
        strings(&["hello"]),
        rules.keys(),
        strings(&["!", END]),
    ];
    propagate(&mut vector, &rules, 1);

    let expected: WfcVector = vec![
        strings(&[START]),
        strings(&["hello"]),
        strings(&["world", "there"]),
        strings(&["!", END]),
    ];
    let got: Vec<HashSet<String>> = vector.iter().map(|d| as_set(d)).collect();
    let want: Vec<HashSet<String>> = expected.iter().map(|d| as_set(d)).collect();
    assert_eq!(got, want);
}

#[test]
fn propagate_reaches_closure() {
    let rules = get_rules();
    let mut vector = generate_wfc_vector(&rules, 2);
    let before: Vec<usize> = vector.iter().map(|d| d.len()).collect();
    propagate(&mut vector, &rules, 0);
    propagate(&mut vector, &rules, 3);
    for (i, domain) in vector.iter().enumerate() {
        assert!(domain.len() <= before[i]);
        if i > 0 {
            for token in domain {
                let supported = vector[i - 1].iter().any(|left| {
                    rules.get(left).map_or(false, |a| a.after.contains(token))
                });
                assert!(supported || token.is_empty());
            }
        }
    }
    assert_eq!(as_set(&vector[1]), as_set(&strings(&["hello"])));
    assert_eq!(as_set(&vector[2]), as_set(&strings(&["there"])));
    assert_eq!(as_set(&vector[3]), as_set(&strings(&[END])));
}

fn no_branching_rules() -> Rules {
    let mut rules = Rules::new();
    rules.insert(START.to_string(), Allowed::new(strings(&[END]), strings(&["hello"])));
    rules.insert("hello".to_string(), Allowed::new(strings(&[START]), strings(&["world"])));
    rules.insert("world".to_string(), Allowed::new(strings(&["hello"]), strings(&[END])));
    rules.insert(END.to_string(), Allowed::new(strings(&["world"]), strings(&[START])));
    rules
}

#[test]
fn no_branching_rules_give_the_single_line() {
    let rules = no_branching_rules();
    let expected = strings(&[START, "hello", "world", END]);
    for picks in [vec![0, 0, 0, 0], vec![1, 2, 3, 4], vec![7, 99, 12345, 5], vec![usize::MAX; 4]] {
        let vector = generate_wfc_vector(&rules, 2);
        assert_eq!(iterate_with(vector, &rules, &picks), Ok(expected.clone()));
    }
    for _ in 0..20 {
        let vector = generate_wfc_vector(&rules, 2);
        assert_eq!(iterate(vector, &rules), Ok(expected.clone()));
    }
}

#[test]
fn iterate_keeps_each_token_in_its_domain() {
    let rules = get_rules();
    for _ in 0..20 {
        let vector = generate_wfc_vector(&rules, 3);
        let domains = vector.clone();
        let line = iterate(vector, &rules).unwrap();
        assert_eq!(line.len(), 5);
        for (i, token) in line.iter().enumerate() {
            assert!(domains[i].contains(token) || token.is_empty());
        }
    }
}

#[test]
fn iterate_fails_on_an_empty_domain() {
    let rules = Rules::new();
    let vector: WfcVector = vec![vec![]];
    assert_eq!(iterate_with(vector, &rules, &vec![0]), Err(WfcError::EmptyDomain));
    let vector = generate_wfc_vector(&rules, 2);
    assert_eq!(iterate(vector, &rules), Ok(vec![String::new(); 4]));
}

#[test]
fn settle_narrows_every_position() {
    let rules = no_branching_rules();
    let mut vector = generate_wfc_vector(&rules, 2);
    settle(&mut vector, &rules);
    assert_eq!(
        vector,
        vec![strings(&[START]), strings(&["hello"]), strings(&["world"]), strings(&[END])]
    );
}

#[test]
fn propagate_from_the_left_end_fixes_the_single_line() {
    let rules = no_branching_rules();
    let mut vector = generate_wfc_vector(&rules, 2);
    propagate(&mut vector, &rules, 0);
    assert_eq!(
        vector,
        vec![strings(&[START]), strings(&["hello"]), strings(&["world"]), strings(&[END])]
    );
}

#[test]
fn settled_input_can_still_meet_a_dead_end() {
    // `a` permits `b` and `c` after it, but only `c` accepts `a` before it.
    let mut rules = Rules::new();
    rules.insert("a".to_string(), Allowed::new(vec![], strings(&["b", "c"])));
    rules.insert("b".to_string(), Allowed::new(vec![], vec![]));
    rules.insert("c".to_string(), Allowed::new(strings(&["a"]), vec![]));
    let vector: WfcVector = vec![strings(&["a"]), strings(&["b", "c"])];
    let mut settled = vector.clone();
    settle(&mut settled, &rules);
    assert_eq!(settled, vector);
    assert_eq!(iterate_with(vector.clone(), &rules, &vec![0, 1]), Ok(strings(&["a", "c"])));
    assert_eq!(iterate_with(vector, &rules, &vec![0, 0]), Ok(strings(&["", ""])));
}
