use wfc::rules::{generate_wfc_vector, Allowed, Rules, END, START};

fn strings(items: &[&str]) -> Vec<String> {
    items.iter().map(|s| s.to_string()).collect()
}

fn get_rules() -> Rules {
    let mut rules = Rules::new();
    rules.insert(START.to_string(), Allowed::new(strings(&[END]), strings(&["hello"])));
    rules.insert("hello".to_string(), Allowed::new(strings(&[START]), strings(&["world", "there"])));
    rules.insert("world".to_string(), Allowed::new(strings(&["hello"]), strings(&["!"])));
    rules.insert("there".to_string(), Allowed::new(strings(&["hello"]), strings(&[END])));
    rules.insert("!".to_string(), Allowed::new(strings(&["world"]), strings(&[END])));
    rules.insert(END.to_string(), Allowed::new(strings(&["there"]), strings(&[START])));
    rules
}

#[test]
fn test_generate_wfc_vector_sanity() {
    let size = 10usize;
    let rules = get_rules();
    let vector = generate_wfc_vector(&rules, size);

    assert_eq!(vector.capacity(), size + 2);
    assert_eq!(vector.len(), size + 2);
    assert_eq!(vector[0].iter().next().unwrap(), &START.to_string());
    assert_eq!(vector[size + 1].iter().next().unwrap(), &END.to_string());
    assert_eq!(vector[1].len(), rules.keys().len());
}

#[test]
fn generate_wfc_vector_of_no_tokens() {
    let rules = get_rules();
    let vector = generate_wfc_vector(&rules, 0);
    assert_eq!(vector, vec![strings(&[START]), strings(&[END])]);
}

#[test]
fn generate_wfc_vector_boundaries_are_single() {
    let rules = get_rules();
    for size in 0..5usize {
        let vector = generate_wfc_vector(&rules, size);
        assert_eq!(vector.len(), size + 2);
        assert_eq!(vector[0], strings(&[START]));
        assert_eq!(vector[size + 1], strings(&[END]));
        for domain in &vector[1..size + 1] {
            let mut keys = rules.keys();
            let mut got = domain.clone();
            keys.sort();
            got.sort();
            assert_eq!(got, keys);
        }
    }
}

#[test]
fn insert_replaces_the_record_of_a_key() {
    let mut rules = get_rules();
    rules.insert("hello".to_string(), Allowed::new(strings(&["x"]), strings(&["y"])));
    assert_eq!(rules.keys().len(), 6);
    assert_eq!(rules.get("hello").unwrap().after, strings(&["y"]));
    assert_eq!(rules.get("hello").unwrap().before, strings(&["x"]));
    assert!(rules.get("missing").is_none());
    assert!(!rules.contains_key("missing"));
    assert!(rules.contains_key(END));
}
