use renumber::order::{path_le_exec, sort_paths};

fn bytes(items: &[&[u8]]) -> Vec<Vec<u8>> {
    items.iter().map(|s| s.to_vec()).collect()
}

#[test]
fn shorter_paths_sort_first() {
    assert!(path_le_exec(&b"/b".to_vec(), &b"/aaa".to_vec()));
    assert!(!path_le_exec(&b"/aaa".to_vec(), &b"/b".to_vec()));
}

#[test]
fn equal_length_sorts_bytewise() {
    assert!(path_le_exec(&b"/x/a.txt".to_vec(), &b"/x/b.txt".to_vec()));
    assert!(!path_le_exec(&b"/x/b.txt".to_vec(), &b"/x/a.txt".to_vec()));
    assert!(path_le_exec(&b"/x/a.txt".to_vec(), &b"/x/a.txt".to_vec()));
}

#[test]
fn sort_by_length_then_lex() {
    let sorted = sort_paths(bytes(&[b"/x/b.txt", b"/x/a.txt", b"/x/ccc.txt"]));
    assert_eq!(
        sorted,
        bytes(&[b"/x/a.txt", b"/x/b.txt", b"/x/ccc.txt"])
    );
}

#[test]
fn length_wins_over_alphabet() {
    // "/z" is shorter than "/aaa", so it sorts first despite 'z' > 'a'
    let sorted = sort_paths(bytes(&[b"/aaa", b"/z"]));
    assert_eq!(sorted, bytes(&[b"/z", b"/aaa"]));
}

#[test]
fn order_is_deterministic() {
    // the same set of canonical paths, arriving in different orders,
    // always comes out in the same order
    let a = sort_paths(bytes(&[b"/p/long.name", b"/p/a", b"/q/bb", b"/r/c.c"]));
    let b = sort_paths(bytes(&[b"/q/bb", b"/r/c.c", b"/p/a", b"/p/long.name"]));
    let c = sort_paths(bytes(&[b"/p/a", b"/q/bb", b"/p/long.name", b"/r/c.c"]));
    assert_eq!(a, b);
    assert_eq!(a, c);
}

#[test]
fn sort_keeps_duplicates() {
    let sorted = sort_paths(bytes(&[b"/x/a", b"/x/a", b"/x/b"]));
    assert_eq!(sorted, bytes(&[b"/x/a", b"/x/a", b"/x/b"]));
}

#[test]
fn sort_empty_is_empty() {
    let sorted = sort_paths(Vec::new());
    assert!(sorted.is_empty());
}
