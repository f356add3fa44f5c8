use artifact_pruner::entry::FileEntry;
use artifact_pruner::group::group_entries;
use artifact_pruner::plan::{mib_of, plan_prune, prune_group};

fn entry(name: &str, modified: u64, size: u64) -> FileEntry {
    FileEntry {
        name: name.to_string(),
        modified,
        size,
    }
}

fn names(entries: &[FileEntry]) -> Vec<String> {
    entries.iter().map(|e| e.name.clone()).collect()
}

#[test]
fn groups_by_logical_key_in_first_seen_order() {
    let groups = group_entries(vec![
        entry("libbar-aaaaaaaaaaaaaaaa.rlib", 5, 10),
        entry("libfoo-0123456789abcdef.rlib", 1, 20),
        entry("readme.txt", 9, 30),
        entry("libbar-bbbbbbbbbbbbbbbb.rlib", 2, 40),
    ]);
    assert_eq!(groups.len(), 2);
    assert_eq!(groups[0].key, "libbar.rlib");
    assert_eq!(
        names(&groups[0].members),
        vec![
            "libbar-aaaaaaaaaaaaaaaa.rlib".to_string(),
            "libbar-bbbbbbbbbbbbbbbb.rlib".to_string()
        ]
    );
    assert_eq!(groups[1].key, "libfoo.rlib");
    assert_eq!(names(&groups[1].members), vec!["libfoo-0123456789abcdef.rlib".to_string()]);
}

#[test]
fn same_base_different_extension_is_another_group() {
    let groups = group_entries(vec![
        entry("libfoo-0123456789abcdef.rlib", 1, 1),
        entry("libfoo-0123456789abcdef.rmeta", 2, 2),
    ]);
    assert_eq!(groups.len(), 2);
    assert_eq!(groups[0].key, "libfoo.rlib");
    assert_eq!(groups[1].key, "libfoo.rmeta");
}

#[test]
fn prune_keeps_the_newest_member() {
    let (kept, deleted) = prune_group(vec![
        entry("a-0000000000000000.o", 10, 1),
        entry("a-1111111111111111.o", 30, 2),
        entry("a-2222222222222222.o", 20, 3),
    ]);
    assert_eq!(kept.name, "a-1111111111111111.o");
    assert_eq!(
        names(&deleted),
        vec!["a-0000000000000000.o".to_string(), "a-2222222222222222.o".to_string()]
    );
}

#[test]
fn prune_breaks_timestamp_ties_towards_the_last_seen() {
    let (kept, deleted) = prune_group(vec![
        entry("a-0000000000000000.o", 7, 1),
        entry("a-1111111111111111.o", 7, 2),
        entry("a-2222222222222222.o", 3, 3),
    ]);
    assert_eq!(kept.name, "a-1111111111111111.o");
    assert_eq!(deleted.len(), 2);
}

#[test]
fn group_of_n_loses_n_minus_one() {
    let plan = plan_prune(vec![
        entry("x-aaaaaaaaaaaaaaaa.rlib", 1, 5),
        entry("x-bbbbbbbbbbbbbbbb.rlib", 2, 5),
        entry("x-cccccccccccccccc.rlib", 3, 5),
        entry("x-dddddddddddddddd.rlib", 4, 5),
    ]);
    assert_eq!(plan.delete.len(), 3);
    assert_eq!(plan.keep.len(), 1);
    assert_eq!(plan.keep[0].name, "x-dddddddddddddddd.rlib");
}

#[test]
fn singleton_group_loses_nothing() {
    let plan = plan_prune(vec![entry("only-0123456789abcdef.rlib", 42, 1000)]);
    assert_eq!(plan.delete.len(), 0);
    assert_eq!(plan.keep.len(), 1);
    assert_eq!(plan.total_bytes, 0);
}

#[test]
fn reported_size_sums_exactly_the_deletions() {
    let plan = plan_prune(vec![
        entry("x-aaaaaaaaaaaaaaaa.rlib", 1, 100),
        entry("x-bbbbbbbbbbbbbbbb.rlib", 2, 200),
        entry("x-cccccccccccccccc.rlib", 3, 400),
        entry("y-aaaaaaaaaaaaaaaa.rlib", 1, 1000),
        entry("y-bbbbbbbbbbbbbbbb.rlib", 2, 2000),
    ]);
    // x keeps its third member, y its second
    assert_eq!(plan.total_bytes, 100 + 200 + 1000);
}

#[test]
fn a_run_is_a_function_of_the_entries_alone() {
    let build = || {
        vec![
            entry("x-aaaaaaaaaaaaaaaa.rlib", 5, 100),
            entry("x-bbbbbbbbbbbbbbbb.rlib", 5, 200),
            entry("readme.txt", 1, 50),
            entry("y-aaaaaaaaaaaaaaaa.o", 9, 300),
        ]
    };
    let first = plan_prune(build());
    let second = plan_prune(build());
    assert_eq!(names(&first.delete), names(&second.delete));
    assert_eq!(names(&first.keep), names(&second.keep));
    assert_eq!(first.total_bytes, second.total_bytes);
}

#[test]
fn end_to_end_example() {
    let older_size: u64 = 3 * 1024 * 1024 + 7;
    let plan = plan_prune(vec![
        entry("libfoo-0123456789abcdef.rlib", 100, older_size),
        entry("libfoo-fedcba9876543210.rlib", 200, 1),
        entry("readme.txt", 300, 999),
    ]);
    assert_eq!(names(&plan.delete), vec!["libfoo-0123456789abcdef.rlib".to_string()]);
    assert_eq!(names(&plan.keep), vec!["libfoo-fedcba9876543210.rlib".to_string()]);
    assert_eq!(plan.total_bytes, older_size as u128);
    // the summary line floors to whole mebibytes
    assert_eq!(mib_of(plan.total_bytes), 3);
}

#[test]
fn empty_directory_plans_nothing() {
    let plan = plan_prune(vec![]);
    assert_eq!(plan.delete.len(), 0);
    assert_eq!(plan.keep.len(), 0);
    assert_eq!(plan.total_bytes, 0);
}

#[test]
fn unclassified_files_plan_nothing() {
    let plan = plan_prune(vec![entry("readme.txt", 1, 10), entry("notes.md", 2, 20)]);
    assert_eq!(plan.delete.len(), 0);
    assert_eq!(plan.keep.len(), 0);
    assert_eq!(plan.total_bytes, 0);
}

#[test]
fn mebibytes_divide_by_two_to_the_twentieth() {
    assert_eq!(mib_of(0), 0);
    assert_eq!(mib_of(1048575), 0);
    assert_eq!(mib_of(1048576), 1);
    assert_eq!(mib_of(10 * 1048576 + 1048575), 10);
}
