use renumber::order::sort_paths;
use renumber::plan::{build_plan, make_target, preview_lines, render_mapping, RenamePair};

fn bytes(items: &[&[u8]]) -> Vec<Vec<u8>> {
    items.iter().map(|s| s.to_vec()).collect()
}

#[test]
fn target_keeps_directory_and_extension() {
    assert_eq!(
        make_target(&b"/d/a.txt".to_vec(), &b"0".to_vec()),
        b"/d/0.txt".to_vec()
    );
}

#[test]
fn target_without_extension_is_bare() {
    // a file with no extension keeps a bare numeric target name
    assert_eq!(
        make_target(&b"/d/afile".to_vec(), &b"7".to_vec()),
        b"/d/7".to_vec()
    );
}

#[test]
fn target_of_hidden_file_is_bare() {
    // ".bashrc" has no extension in the Path::extension sense
    assert_eq!(
        make_target(&b"/home/u/.bashrc".to_vec(), &b"1".to_vec()),
        b"/home/u/1".to_vec()
    );
}

#[test]
fn target_keeps_only_last_extension() {
    assert_eq!(
        make_target(&b"/d/a.tar.gz".to_vec(), &b"0".to_vec()),
        b"/d/0.gz".to_vec()
    );
}

#[test]
fn target_with_empty_extension_is_bare() {
    // "a." has an empty extension; the target drops the dot
    assert_eq!(
        make_target(&b"/d/a.".to_vec(), &b"3".to_vec()),
        b"/d/3".to_vec()
    );
}

fn pairs(plan: &[RenamePair]) -> Vec<(Vec<u8>, Vec<u8>)> {
    plan.iter().map(|p| (p.src.clone(), p.dst.clone())).collect()
}

#[test]
fn plan_for_three_files_from_zero() {
    // inputs b.txt, a.txt, ccc.txt -> sorted a.txt, b.txt, ccc.txt ->
    // indices 0, 1, 2, width 1, applied highest index first
    let sorted = sort_paths(bytes(&[b"/x/b.txt", b"/x/a.txt", b"/x/ccc.txt"]));
    let plan = build_plan(sorted, 0);
    assert_eq!(
        pairs(&plan),
        vec![
            (b"/x/ccc.txt".to_vec(), b"/x/2.txt".to_vec()),
            (b"/x/b.txt".to_vec(), b"/x/1.txt".to_vec()),
            (b"/x/a.txt".to_vec(), b"/x/0.txt".to_vec()),
        ]
    );
}

#[test]
fn plan_with_start_offset() {
    // start 5, 3 files: indices 5, 6, 7, width 1 (7 needs one digit)
    let sorted = sort_paths(bytes(&[b"/x/a", b"/x/b", b"/x/c"]));
    let plan = build_plan(sorted, 5);
    assert_eq!(
        pairs(&plan),
        vec![
            (b"/x/c".to_vec(), b"/x/7".to_vec()),
            (b"/x/b".to_vec(), b"/x/6".to_vec()),
            (b"/x/a".to_vec(), b"/x/5".to_vec()),
        ]
    );
}

#[test]
fn width_comes_from_count_not_start() {
    // 2 files starting at 95: width is count_digits(2) == 1, so the
    // rendered indices simply keep their own full width
    let plan = build_plan(bytes(&[b"/x/a", b"/x/b"]), 95);
    assert_eq!(
        pairs(&plan),
        vec![
            (b"/x/b".to_vec(), b"/x/96".to_vec()),
            (b"/x/a".to_vec(), b"/x/95".to_vec()),
        ]
    );
}

#[test]
fn ten_files_get_two_digit_names() {
    let mut input: Vec<Vec<u8>> = Vec::new();
    for i in 0..10u8 {
        input.push(vec![b'/', b'd', b'/', b'a' + i]);
    }
    let plan = build_plan(sort_paths(input), 0);
    assert_eq!(plan.len(), 10);
    assert_eq!(plan[0].dst, b"/d/09".to_vec());
    assert_eq!(plan[9].dst, b"/d/00".to_vec());
}

#[test]
fn plan_length_matches_input_with_duplicates() {
    // duplicate canonical paths are not deduplicated: one entry each
    let plan = build_plan(bytes(&[b"/x/a", b"/x/a"]), 0);
    assert_eq!(plan.len(), 2);
    assert_eq!(plan[0].src, b"/x/a".to_vec());
    assert_eq!(plan[1].src, b"/x/a".to_vec());
}

#[test]
fn empty_plan_for_no_files() {
    let plan = build_plan(Vec::new(), 0);
    assert!(plan.is_empty());
}

#[test]
fn mapping_line_format() {
    assert_eq!(
        render_mapping(&b"/x/a".to_vec(), &b"/x/0".to_vec()),
        b"/x/a -> /x/0".to_vec()
    );
}

#[test]
fn preview_lists_plan_in_order() {
    let plan = build_plan(bytes(&[b"/x/a", b"/x/b"]), 0);
    let lines = preview_lines(&plan);
    assert_eq!(
        lines,
        vec![b"/x/b -> /x/1".to_vec(), b"/x/a -> /x/0".to_vec()]
    );
}

#[test]
fn preview_is_idempotent() {
    // previewing mutates nothing: two previews of one plan are identical
    let plan = build_plan(bytes(&[b"/x/a.c", b"/x/b.c"]), 0);
    let first = preview_lines(&plan);
    let second = preview_lines(&plan);
    assert_eq!(first, second);
}
