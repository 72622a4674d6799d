use garou::filetree::{sidebar_root_dir, SidebarTree, TreeNode};
use garou::listing::{
    build_tree_nodes, check_start_dir, collect_image_files, has_image_file, plan_image_start, resolve_image_start,
    resolve_start_index, DirEntry, StartError,
};

fn f(path: &str) -> DirEntry {
    DirEntry { path: path.to_string(), is_dir: false, is_file: true, entries: Vec::new() }
}

fn d(path: &str, entries: Vec<DirEntry>) -> DirEntry {
    DirEntry { path: path.to_string(), is_dir: true, is_file: false, entries }
}

fn exts() -> Vec<String> {
    vec!["png".to_string(), "jpg".to_string()]
}

fn listing() -> Vec<DirEntry> {
    vec![
        f("d/b.png"),
        d("d/sub", vec![f("d/sub/x.png"), f("d/sub/notes.txt")]),
        f("d/a.png"),
        f("d/readme.md"),
    ]
}

fn files() -> Vec<String> {
    vec!["d/a.png".to_string(), "d/b.png".to_string(), "d/sub/x.png".to_string()]
}

#[test]
fn tree_nodes_list_directories_first_in_preorder() {
    let mut nodes: Vec<TreeNode> = Vec::new();
    let roots = build_tree_nodes(&listing(), None, 0, &mut nodes, &exts());
    assert_eq!(roots, vec![0, 2, 3]);
    let names: Vec<&str> = nodes.iter().map(|n| n.name.as_str()).collect();
    assert_eq!(names, vec!["sub", "x.png", "a.png", "b.png"]);
    assert!(nodes[0].is_dir);
    assert_eq!(nodes[0].children, vec![1]);
    assert_eq!(nodes[1].parent, Some(0));
    assert_eq!(nodes[1].depth, 1);
    assert_eq!(nodes[2].parent, None);
    assert_eq!(nodes[3].path, "d/b.png");
}

#[test]
fn nested_directories_sort_naturally() {
    let l = vec![d("r/dir10", vec![f("r/dir10/p.png")]), d("r/dir9", vec![]), f("r/img10.png"), f("r/img9.png")];
    let mut nodes: Vec<TreeNode> = Vec::new();
    let roots = build_tree_nodes(&l, None, 3, &mut nodes, &exts());
    assert_eq!(roots, vec![0, 1, 3, 4]);
    let names: Vec<&str> = nodes.iter().map(|n| n.name.as_str()).collect();
    assert_eq!(names, vec!["dir9", "dir10", "p.png", "img9.png", "img10.png"]);
    assert_eq!(nodes[2].depth, 4);
    assert_eq!(nodes[0].depth, 3);
}

#[test]
fn image_files_come_before_subdirectories() {
    assert_eq!(collect_image_files(&listing(), &exts()), files());
    let l = vec![d("r/z", vec![f("r/z/1.png")]), d("r/a", vec![f("r/a/2.png")]), f("r/10.png"), f("r/9.png")];
    assert_eq!(collect_image_files(&l, &exts()), vec!["r/9.png", "r/10.png", "r/a/2.png", "r/z/1.png"]);
}

#[test]
fn image_file_check_needs_regular_files() {
    assert!(has_image_file(&listing(), &exts()));
    assert!(!has_image_file(&vec![d("d/x.png", vec![]), f("d/a.txt")], &exts()));
    let mut special = f("d/pipe.png");
    special.is_file = false;
    assert!(!has_image_file(&vec![special], &exts()));
}

#[test]
fn start_index_finds_the_opened_file() {
    assert_eq!(resolve_start_index(&files(), "d/b.png"), 1);
    assert_eq!(resolve_start_index(&files(), "d//b.png"), 1);
    assert_eq!(resolve_start_index(&files(), "d/none.png"), 0);
}

#[test]
fn sidebar_root_is_the_current_images_directory() {
    assert_eq!(sidebar_root_dir(&files(), 2), "d/sub");
    assert_eq!(sidebar_root_dir(&files(), 9), "d");
    assert_eq!(sidebar_root_dir(&Vec::new(), 0), ".");
}

#[test]
fn sidebar_starts_on_the_current_image() {
    let tree = SidebarTree::from_image_files(&listing(), &files(), 1, &exts());
    assert_eq!(tree.visible_len(), 3);
    assert_eq!(tree.cursor_position(), 2);
    assert_eq!(tree.cursor_image_index(), Some(1));
    let entries = tree.render_entries(Some("d/b.png"));
    let names: Vec<&str> = entries.iter().map(|e| e.name.as_str()).collect();
    assert_eq!(names, vec!["sub", "a.png", "b.png"]);
    assert!(entries[0].is_dir && !entries[0].is_expanded);
    assert!(entries[2].is_cursor && entries[2].is_current_image);
    assert!(!entries[1].is_cursor && !entries[1].is_current_image);
}

#[test]
fn sidebar_reveals_a_nested_current_image() {
    let tree = SidebarTree::from_image_files(&listing(), &files(), 2, &exts());
    assert_eq!(tree.visible_len(), 4);
    assert_eq!(tree.cursor_position(), 1);
    assert_eq!(tree.cursor_image_index(), Some(2));
    let entries = tree.render_entries(None);
    assert!(entries[0].is_expanded);
    assert_eq!(entries[1].depth, 1);
}

#[test]
fn cursor_moves_and_directories_toggle() {
    let mut tree = SidebarTree::from_image_files(&listing(), &files(), 1, &exts());
    assert!(!tree.move_cursor(5));
    assert!(tree.move_cursor(-2));
    assert_eq!(tree.cursor_image_index(), None);
    assert!(tree.toggle_current_dir());
    assert_eq!(tree.visible_len(), 4);
    assert_eq!(tree.cursor_position(), 0);
    assert!(tree.move_cursor(1));
    assert_eq!(tree.cursor_image_index(), Some(2));
    assert!(!tree.collapse_current_dir());
    assert!(tree.move_cursor(-1));
    assert!(tree.collapse_current_dir());
    assert_eq!(tree.visible_len(), 3);
    assert!(!tree.collapse_current_dir());
    assert!(tree.expand_current_dir());
    assert!(!tree.expand_current_dir());
    assert!(tree.toggle_current_dir());
    assert!(tree.toggle_current_dir());
    assert_eq!(tree.visible_len(), 4);
    assert!(tree.move_to_end());
    assert_eq!(tree.cursor_position(), 3);
    assert!(tree.move_to_start());
    assert!(!tree.move_to_start());
    assert!(tree.move_cursor_page(1, 2));
    assert_eq!(tree.cursor_position(), 2);
    assert!(!tree.move_cursor_page(1, 0));
}

#[test]
fn clicking_a_row_moves_the_cursor() {
    let mut tree = SidebarTree::from_image_files(&listing(), &files(), 1, &exts());
    assert!(tree.set_cursor_by_screen_row(2, 10));
    assert_eq!(tree.cursor_position(), 1);
    assert!(!tree.set_cursor_by_screen_row(0, 10));
    assert!(!tree.set_cursor_by_screen_row(9, 10));
    assert!(!tree.set_cursor_by_screen_row(5, 10));
    assert_eq!(tree.visible_start_for_rows(8), 0);
}

#[test]
fn syncing_reveals_and_selects() {
    let mut tree = SidebarTree::from_image_files(&listing(), &files(), 0, &exts());
    assert_eq!(tree.visible_len(), 3);
    tree.sync_cursor_to_image("d/sub/x.png");
    assert_eq!(tree.visible_len(), 4);
    assert_eq!(tree.cursor_position(), 1);
    tree.sync_cursor_to_image("d/missing.png");
    assert_eq!(tree.cursor_position(), 1);
}

#[test]
fn reindexing_follows_a_new_order() {
    let mut tree = SidebarTree::from_image_files(&listing(), &files(), 1, &exts());
    let reordered = vec!["d/sub/x.png".to_string(), "d/b.png".to_string(), "d/a.png".to_string()];
    tree.refresh_image_index_map(&reordered, Some("d/b.png"));
    assert_eq!(tree.cursor_image_index(), Some(1));
    assert!(tree.move_cursor(-1));
    assert_eq!(tree.cursor_image_index(), Some(2));
}

#[test]
fn start_plans_follow_the_command_line_path() {
    let plan = plan_image_start(None, false, "/home/u".to_string()).unwrap();
    assert_eq!(plan.dir, "/home/u");
    assert_eq!(plan.check, Some(StartError::NoImagesInCurrentDirectory));
    assert_eq!(plan.opened_file, None);

    let plan = plan_image_start(Some("d".to_string()), true, "/home/u".to_string()).unwrap();
    assert_eq!(plan.dir, "d");
    assert_eq!(plan.check, Some(StartError::NoImagesInDirectory));

    let plan = plan_image_start(Some("d/b.png".to_string()), false, "/home/u".to_string()).unwrap();
    assert_eq!(plan.dir, "d");
    assert_eq!(plan.check, None);
    assert_eq!(plan.opened_file, Some("d/b.png".to_string()));

    assert_eq!(plan_image_start(Some("/".to_string()), false, "/".to_string()).unwrap_err(), StartError::NoParentDirectory);

    let bare = plan_image_start(Some("photo.png".to_string()), false, "/home/u".to_string()).unwrap();
    assert_eq!(bare.dir, "/home/u");
    assert_eq!(bare.check, None);
    assert_eq!(bare.opened_file, Some("/home/u/photo.png".to_string()));
    let listing = vec![f("/home/u/a.png"), f("/home/u/photo.png")];
    let (list, start) = resolve_image_start(&bare, &listing, &exts()).unwrap();
    assert_eq!(list[start], "/home/u/photo.png");
}

#[test]
fn start_lists_images_and_finds_the_opened_file() {
    let opened = plan_image_start(Some("d/b.png".to_string()), false, ".".to_string()).unwrap();
    let (list, start) = resolve_image_start(&opened, &listing(), &exts()).unwrap();
    assert_eq!(list, files());
    assert_eq!(start, 1);

    let dir = plan_image_start(Some("d".to_string()), true, ".".to_string()).unwrap();
    let top = vec![f("d/readme.md"), d("d/sub", vec![])];
    assert_eq!(check_start_dir(&dir, &top, &exts()), Err(StartError::NoImagesInDirectory));
    assert_eq!(resolve_image_start(&dir, &top, &exts()).unwrap_err(), StartError::NoImagesInDirectory);
    let (list, start) = resolve_image_start(&dir, &listing(), &exts()).unwrap();
    assert_eq!(list.len(), 3);
    assert_eq!(start, 0);
}

#[test]
fn opened_file_outside_any_image_gives_an_empty_list() {
    let opened = plan_image_start(Some("d/notes.txt".to_string()), false, ".".to_string()).unwrap();
    let (list, start) = resolve_image_start(&opened, &vec![f("d/notes.txt")], &exts()).unwrap();
    assert!(list.is_empty());
    assert_eq!(start, 0);
}

#[test]
fn toggling_a_nested_directory_twice_restores_the_view() {
    let listing = vec![d("r/a", vec![d("r/a/b", vec![f("r/a/b/x.png")]), f("r/a/y.png")]), f("r/z.png")];
    let files = vec!["r/a/b/x.png".to_string(), "r/a/y.png".to_string(), "r/z.png".to_string()];
    let mut tree = SidebarTree::from_image_files(&listing, &files, 1, &exts());
    assert_eq!((tree.visible_len(), tree.cursor_position()), (4, 2));
    assert!(tree.move_cursor(-1));
    assert!(tree.toggle_current_dir());
    assert_eq!((tree.visible_len(), tree.cursor_position()), (5, 1));
    assert!(tree.toggle_current_dir());
    assert_eq!((tree.visible_len(), tree.cursor_position()), (4, 1));
}
