use malevich::group::group_keys;

#[test]
fn keys_group_in_first_appearance_order() {
    let keys: Vec<String> = ["b", "a", "b", "c", "a"].iter().map(|k| k.to_string()).collect();
    let (groups, indices) = group_keys(&keys);
    assert_eq!(groups, ["b", "a", "c"]);
    assert_eq!(indices, [0, 1, 0, 2, 1]);
    let (groups, indices) = group_keys(&Vec::new());
    assert!(groups.is_empty());
    assert!(indices.is_empty());
}
