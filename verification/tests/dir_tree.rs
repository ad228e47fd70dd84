use axramfs::dir::{DirTree, VfsDirEntry};
use axramfs::path::{split_parent_name, split_path};
use axramfs::{VfsError, VfsNodeType};

fn empty_slots(n: usize) -> Vec<VfsDirEntry> {
    let mut v = Vec::new();
    for _ in 0..n {
        v.push(VfsDirEntry::new(String::new(), VfsNodeType::File));
    }
    v
}

#[test]
fn split_path_basic() {
    assert_eq!(split_path("a/b/c"), ("a", Some("b/c")));
    assert_eq!(split_path("/a/b"), ("a", Some("b")));
    assert_eq!(split_path("abc"), ("abc", None));
    assert_eq!(split_path(""), ("", None));
    assert_eq!(split_path("///x"), ("x", None));
    assert_eq!(split_path("a//b"), ("a", Some("/b")));
    assert_eq!(split_path("a/"), ("a", Some("")));
}

#[test]
fn split_parent_name_basic() {
    assert_eq!(split_parent_name("a/b/c"), Ok(("a/b", "c")));
    assert_eq!(split_parent_name("/a"), Ok((".", "a")));
    assert_eq!(split_parent_name("a"), Ok((".", "a")));
    assert_eq!(split_parent_name("/x/y"), Ok(("x", "y")));
    assert_eq!(split_parent_name(""), Ok((".", "")));
}

#[test]
fn create_then_lookup_reports_file() {
    let mut t = DirTree::new();
    assert_eq!(t.create(0, "x", VfsNodeType::File), Ok(()));
    let id = t.lookup(0, "x").unwrap();
    assert_eq!(t.get_attr(id).file_type(), VfsNodeType::File);
}

#[test]
fn lookup_missing_is_not_found() {
    let t = DirTree::new();
    assert_eq!(t.lookup(0, "nothing"), Err(VfsError::NotFound));
}

#[test]
fn lookup_dot_and_empty_resolve_to_self() {
    let t = DirTree::new();
    assert_eq!(t.lookup(0, ""), Ok(0));
    assert_eq!(t.lookup(0, "."), Ok(0));
    assert_eq!(t.lookup(0, "./."), Ok(0));
}

#[test]
fn dotdot_at_root_fails() {
    let t = DirTree::new();
    assert_eq!(t.lookup(0, ".."), Err(VfsError::NotFound));
}

#[test]
fn dotdot_resolves_to_parent() {
    let mut t = DirTree::new();
    assert_eq!(t.create(0, "d", VfsNodeType::Dir), Ok(()));
    let d = t.lookup(0, "d").unwrap();
    assert_eq!(t.lookup(d, ".."), Ok(0));
    assert_eq!(t.lookup(0, "d/.."), Ok(0));
}

#[test]
fn nested_create_and_lookup() {
    let mut t = DirTree::new();
    assert_eq!(t.create(0, "a", VfsNodeType::Dir), Ok(()));
    assert_eq!(t.create(0, "a/b", VfsNodeType::Dir), Ok(()));
    assert_eq!(t.create(0, "a/b/f", VfsNodeType::File), Ok(()));
    let f = t.lookup(0, "a/b/f").unwrap();
    assert_eq!(t.get_attr(f).file_type(), VfsNodeType::File);
    assert_eq!(t.lookup(0, "/a/b/f"), Ok(f));
}

#[test]
fn missing_intermediate_is_not_created() {
    let mut t = DirTree::new();
    assert_eq!(t.create(0, "no/such/file", VfsNodeType::File), Err(VfsError::NotFound));
}

#[test]
fn create_existing_name_already_exists() {
    let mut t = DirTree::new();
    assert_eq!(t.create(0, "x", VfsNodeType::File), Ok(()));
    assert_eq!(t.create(0, "x", VfsNodeType::File), Err(VfsError::AlreadyExists));
    assert!(t.exist(0, "x"));
}

#[test]
fn create_unsupported_kind() {
    let mut t = DirTree::new();
    assert_eq!(t.create(0, "s", VfsNodeType::Socket), Err(VfsError::Unsupported));
    assert_eq!(t.create_node(0, "p", VfsNodeType::Fifo), Err(VfsError::Unsupported));
}

#[test]
fn create_dot_names_is_noop_success() {
    let mut t = DirTree::new();
    assert_eq!(t.create(0, ".", VfsNodeType::Dir), Ok(()));
    assert_eq!(t.create(0, "", VfsNodeType::Dir), Ok(()));
    assert_eq!(t.get_entries(0).len(), 0);
}

#[test]
fn remove_dot_names_is_invalid() {
    let mut t = DirTree::new();
    assert_eq!(t.remove(0, "."), Err(VfsError::InvalidInput));
    assert_eq!(t.remove(0, ".."), Err(VfsError::InvalidInput));
    assert_eq!(t.remove(0, ""), Err(VfsError::InvalidInput));
}

#[test]
fn remove_missing_is_not_found() {
    let mut t = DirTree::new();
    assert_eq!(t.remove(0, "ghost"), Err(VfsError::NotFound));
}

#[test]
fn nonempty_directory_resists_removal_until_emptied() {
    let mut t = DirTree::new();
    assert_eq!(t.create(0, "d", VfsNodeType::Dir), Ok(()));
    assert_eq!(t.create(0, "d/f", VfsNodeType::File), Ok(()));
    assert_eq!(t.remove(0, "d"), Err(VfsError::DirectoryNotEmpty));
    assert_eq!(t.remove(0, "d/f"), Ok(()));
    assert_eq!(t.remove(0, "d"), Ok(()));
    assert_eq!(t.lookup(0, "d"), Err(VfsError::NotFound));
}

#[test]
fn file_removal_needs_no_emptiness() {
    let mut t = DirTree::new();
    assert_eq!(t.create(0, "f", VfsNodeType::File), Ok(()));
    assert_eq!(t.remove(0, "f"), Ok(()));
}

#[test]
fn entries_are_sorted_and_unique() {
    let mut t = DirTree::new();
    assert_eq!(t.create(0, "b", VfsNodeType::File), Ok(()));
    assert_eq!(t.create(0, "a", VfsNodeType::File), Ok(()));
    assert_eq!(t.create(0, "c", VfsNodeType::File), Ok(()));
    assert_eq!(t.get_entries(0), vec!["a".to_string(), "b".to_string(), "c".to_string()]);
    assert_eq!(t.create(0, "b", VfsNodeType::File), Err(VfsError::AlreadyExists));
    assert_eq!(t.get_entries(0), vec!["a".to_string(), "b".to_string(), "c".to_string()]);
}

#[test]
fn read_dir_starts_with_dot_entries() {
    let mut t = DirTree::new();
    t.create(0, "zz", VfsNodeType::File).unwrap();
    let mut slots = empty_slots(2);
    let n = t.read_dir(0, 0, &mut slots).unwrap();
    assert_eq!(n, 2);
    assert_eq!(slots[0].name, ".");
    assert_eq!(slots[0].ty, VfsNodeType::Dir);
    assert_eq!(slots[1].name, "..");
    assert_eq!(slots[1].ty, VfsNodeType::Dir);
}

#[test]
fn read_dir_paginates_one_by_one() {
    let mut t = DirTree::new();
    for name in ["a", "b", "c"] {
        t.create(0, name, VfsNodeType::File).unwrap();
    }
    let expect = [".", "..", "a", "b", "c"];
    for (idx, want) in expect.iter().enumerate() {
        let mut slots = empty_slots(1);
        let n = t.read_dir(0, idx, &mut slots).unwrap();
        assert_eq!(n, 1);
        assert_eq!(slots[0].name, *want);
    }
    let mut slots = empty_slots(1);
    assert_eq!(t.read_dir(0, expect.len(), &mut slots), Ok(0));
}

#[test]
fn read_dir_reports_child_types() {
    let mut t = DirTree::new();
    t.create(0, "d", VfsNodeType::Dir).unwrap();
    t.create(0, "f", VfsNodeType::File).unwrap();
    let mut slots = empty_slots(8);
    let n = t.read_dir(0, 2, &mut slots).unwrap();
    assert_eq!(n, 2);
    assert_eq!(slots[0].name, "d");
    assert_eq!(slots[0].ty, VfsNodeType::Dir);
    assert_eq!(slots[1].name, "f");
    assert_eq!(slots[1].ty, VfsNodeType::File);
}

#[test]
fn same_directory_rename_moves_the_key() {
    let mut t = DirTree::new();
    t.create(0, "a", VfsNodeType::File).unwrap();
    let id = t.lookup(0, "a").unwrap();
    assert_eq!(t.rename(0, "a", "b"), Ok(()));
    assert_eq!(t.lookup(0, "a"), Err(VfsError::NotFound));
    assert_eq!(t.lookup(0, "b"), Ok(id));
}

#[test]
fn rename_missing_source_is_not_found() {
    let mut t = DirTree::new();
    assert_eq!(t.rename(0, "a", "b"), Err(VfsError::NotFound));
}

#[test]
fn rename_to_taken_name_already_exists() {
    let mut t = DirTree::new();
    t.create(0, "a", VfsNodeType::File).unwrap();
    t.create(0, "b", VfsNodeType::File).unwrap();
    assert_eq!(t.rename(0, "a", "b"), Err(VfsError::AlreadyExists));
    assert!(t.exist(0, "a"));
    assert!(t.exist(0, "b"));
}

#[test]
fn cross_directory_rename_moves_the_entry() {
    let mut t = DirTree::new();
    t.create(0, "d1", VfsNodeType::Dir).unwrap();
    t.create(0, "d2", VfsNodeType::Dir).unwrap();
    t.create(0, "d1/a", VfsNodeType::File).unwrap();
    let id = t.lookup(0, "d1/a").unwrap();
    assert_eq!(t.rename(0, "d1/a", "d2/b"), Ok(()));
    assert_eq!(t.lookup(0, "d1/a"), Err(VfsError::NotFound));
    assert_eq!(t.lookup(0, "d2/b"), Ok(id));
}

#[test]
fn cross_directory_rename_rolls_back_on_conflict() {
    let mut t = DirTree::new();
    t.create(0, "d1", VfsNodeType::Dir).unwrap();
    t.create(0, "d2", VfsNodeType::Dir).unwrap();
    t.create(0, "d1/a", VfsNodeType::File).unwrap();
    t.create(0, "d2/b", VfsNodeType::File).unwrap();
    let b_before = t.lookup(0, "d2/b").unwrap();
    assert_eq!(t.rename(0, "d1/a", "d2/b"), Err(VfsError::AlreadyExists));
    assert!(t.lookup(0, "d1/a").is_ok());
    let d2 = t.lookup(0, "d2").unwrap();
    assert_eq!(t.get_entries(d2), vec!["b".to_string()]);
    assert_eq!(t.lookup(0, "d2/b"), Ok(b_before));
}

#[test]
fn rename_source_parent_must_be_directory() {
    let mut t = DirTree::new();
    t.create(0, "f", VfsNodeType::File).unwrap();
    assert_eq!(t.rename(0, "f/x", "y"), Err(VfsError::InvalidInput));
}

#[test]
fn rename_into_own_subtree_is_refused() {
    let mut t = DirTree::new();
    t.create(0, "a", VfsNodeType::Dir).unwrap();
    let a = t.lookup(0, "a").unwrap();
    assert_eq!(t.rename(0, "a", "a/b"), Err(VfsError::InvalidInput));
    assert_eq!(t.lookup(0, "a"), Ok(a));
    assert_eq!(t.get_entries(a).len(), 0);
    t.create(0, "a/c", VfsNodeType::Dir).unwrap();
    assert_eq!(t.rename(0, "a", "a/c/x"), Err(VfsError::InvalidInput));
    assert_eq!(t.lookup(0, "a"), Ok(a));
    // A file of the same name moves freely: only directories carry subtrees.
    t.create(0, "f", VfsNodeType::File).unwrap();
    assert_eq!(t.rename(0, "f", "a/f"), Ok(()));
}

#[test]
fn no_cycle_from_ordinary_operations() {
    let mut t = DirTree::new();
    t.create(0, "a", VfsNodeType::Dir).unwrap();
    t.create(0, "a/b", VfsNodeType::Dir).unwrap();
    t.create(0, "c", VfsNodeType::Dir).unwrap();
    t.rename(0, "a/b", "c/b").unwrap();
    t.rename(0, "c", "a/c").unwrap();
    // Walking up from the deepest directory terminates at the root.
    let mut cur = t.lookup(0, "a/c/b").unwrap();
    let mut steps = 0;
    while let Some(p) = t.parent(cur) {
        cur = p;
        steps += 1;
        assert!(steps <= 8, "parent walk does not terminate");
    }
    assert_eq!(cur, 0);
}

#[test]
fn directory_attributes_are_fixed() {
    let t = DirTree::new();
    let attr = t.get_attr(0);
    assert_eq!(attr.ty, VfsNodeType::Dir);
    assert_eq!(attr.size, 4096);
    assert_eq!(attr.blocks, 0);
}

#[test]
fn lookup_through_file_is_unsupported() {
    let mut t = DirTree::new();
    t.create(0, "f", VfsNodeType::File).unwrap();
    assert_eq!(t.lookup(0, "f/x"), Err(VfsError::Unsupported));
    assert_eq!(t.create(0, "f/x", VfsNodeType::File), Err(VfsError::Unsupported));
    assert_eq!(t.remove(0, "f/x"), Err(VfsError::Unsupported));
}

#[test]
fn set_parent_redirects_dotdot() {
    let mut t = DirTree::new();
    t.create(0, "a", VfsNodeType::Dir).unwrap();
    t.create(0, "b", VfsNodeType::Dir).unwrap();
    let a = t.lookup(0, "a").unwrap();
    let b = t.lookup(0, "b").unwrap();
    t.set_parent(b, Some(a));
    assert_eq!(t.lookup(b, ".."), Ok(a));
    t.set_parent(b, None);
    assert_eq!(t.lookup(b, ".."), Err(VfsError::NotFound));
}
