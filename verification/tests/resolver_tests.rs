use hypr_socket_watch::resolver::{resolve, ResolveError};

fn entries(names: &[&str]) -> Vec<String> {
    names.iter().map(|n| n.to_string()).collect()
}

#[test]
fn index_selects_in_sorted_order() {
    let dir = entries(&["b.png", "a.png", "c.png"]);
    assert_eq!(resolve(&dir, 1), Ok("a.png".to_string()));
    assert_eq!(resolve(&dir, 2), Ok("b.png".to_string()));
    assert_eq!(resolve(&dir, 3), Ok("c.png".to_string()));
}

#[test]
fn index_past_the_end_clamps_to_the_last_entry() {
    let dir = entries(&["b.png", "a.png", "c.png"]);
    assert_eq!(resolve(&dir, 100), Ok("c.png".to_string()));
    assert_eq!(resolve(&dir, 4), Ok("c.png".to_string()));
}

#[test]
fn empty_directory_fails() {
    let dir: Vec<String> = Vec::new();
    assert_eq!(resolve(&dir, 1), Err(ResolveError::DirectoryEmpty));
}

#[test]
fn index_zero_maps_to_the_first_entry() {
    let dir = entries(&["b.png", "a.png", "c.png"]);
    assert_eq!(resolve(&dir, 0), Ok("a.png".to_string()));
}

#[test]
fn single_entry_directory() {
    let dir = entries(&["only.png"]);
    assert_eq!(resolve(&dir, 1), Ok("only.png".to_string()));
    assert_eq!(resolve(&dir, 9), Ok("only.png".to_string()));
}

#[test]
fn order_is_byte_wise_lexicographic() {
    // `B` (0x42) sorts before `a` (0x61); `10` sorts before `9` textually.
    let dir = entries(&["a.png", "B.png", "9.png", "10.png"]);
    assert_eq!(resolve(&dir, 1), Ok("10.png".to_string()));
    assert_eq!(resolve(&dir, 2), Ok("9.png".to_string()));
    assert_eq!(resolve(&dir, 3), Ok("B.png".to_string()));
    assert_eq!(resolve(&dir, 4), Ok("a.png".to_string()));
}

#[test]
fn duplicate_names_keep_the_count() {
    let dir = entries(&["a.png", "a.png", "b.png"]);
    assert_eq!(resolve(&dir, 2), Ok("a.png".to_string()));
    assert_eq!(resolve(&dir, 3), Ok("b.png".to_string()));
}
