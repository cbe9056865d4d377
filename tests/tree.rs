use code2prompt::file_tree::{build_children, DirEntry, FileNode, FileTreeState, ListingError};

fn entry(path: &str, is_directory: bool) -> DirEntry {
    DirEntry { path: path.to_string(), is_directory }
}

fn root_state() -> FileTreeState {
    let mut state = FileTreeState::default();
    state.set_file_tree(vec![
        FileNode::new("/p/src".to_string(), 0, true),
        FileNode::new("/p/README.md".to_string(), 0, false),
    ]);
    state
}

fn src_listing() -> Vec<DirEntry> {
    vec![
        entry("/p/src/main.rs", false),
        entry("/p/src/util", true),
        entry("/p/src/lib.rs", false),
        entry("/p/src/bin", true),
    ]
}

#[test]
fn new_node_takes_last_component_as_name() {
    let n = FileNode::new("/a/b/c.txt".to_string(), 2, false);
    assert_eq!(n.name, "c.txt");
    assert_eq!(n.path, "/a/b/c.txt");
    assert_eq!(n.level, 2);
    assert!(!n.is_selected && !n.is_expanded && !n.children_loaded);
    assert!(n.children.is_empty());
    let root = FileNode::new("/".to_string(), 0, true);
    assert_eq!(root.name, "/");
}

#[test]
fn children_sorted_directories_first_then_by_name() {
    let kids = build_children(&src_listing(), 1);
    let names: Vec<&str> = kids.iter().map(|k| k.name.as_str()).collect();
    assert_eq!(names, vec!["bin", "util", "lib.rs", "main.rs"]);
    assert!(kids.iter().all(|k| k.level == 1 && !k.is_selected));
}

#[test]
fn loading_twice_reads_once() {
    let mut state = root_state();
    assert!(state.needs_loading("/p/src"));
    assert!(state.load_directory_children("/p/src", Ok(src_listing())).is_ok());
    assert_eq!(state.file_tree[0].children.len(), 4);
    assert!(state.file_tree[0].children_loaded);
    assert!(!state.needs_loading("/p/src"));
    let second = state.load_directory_children("/p/src", Ok(vec![entry("/p/src/other", false)]));
    assert!(second.is_ok());
    assert_eq!(state.file_tree[0].children.len(), 4);
}

#[test]
fn files_are_never_loaded() {
    let mut state = root_state();
    assert!(!state.needs_loading("/p/README.md"));
    assert!(state.load_directory_children("/p/README.md", Ok(src_listing())).is_ok());
    assert!(state.file_tree[1].children.is_empty());
}

#[test]
fn failed_listing_leaves_node_retryable() {
    let mut state = root_state();
    let r = state.load_directory_children("/p/src", Err(ListingError { path: "/p/src".to_string() }));
    assert_eq!(r.err().unwrap().path, "/p/src");
    assert!(!state.file_tree[0].children_loaded);
    assert!(state.needs_loading("/p/src"));
    assert!(state.load_directory_children("/p/src", Ok(src_listing())).is_ok());
    assert!(state.file_tree[0].children_loaded);
}

#[test]
fn nested_directory_loads_at_next_level() {
    let mut state = root_state();
    state.load_directory_children("/p/src", Ok(src_listing())).unwrap();
    state
        .load_directory_children("/p/src/util", Ok(vec![entry("/p/src/util/x.rs", false)]))
        .unwrap();
    let util = &state.file_tree[0].children[1];
    assert_eq!(util.name, "util");
    assert_eq!(util.children[0].name, "x.rs");
    assert_eq!(util.children[0].level, 2);
}

#[test]
fn directory_selection_reaches_loaded_descendants_only() {
    let mut state = root_state();
    state.load_directory_children("/p/src", Ok(src_listing())).unwrap();
    state.update_node_selection("/p/src", true, true);
    assert!(state.file_tree[0].is_selected);
    assert!(state.file_tree[0].children.iter().all(|c| c.is_selected));
    assert!(!state.file_tree[1].is_selected);
    state.load_directory_children("/p/src/bin", Ok(vec![entry("/p/src/bin/tool.rs", false)])).unwrap();
    assert!(!state.file_tree[0].children[0].children[0].is_selected);
    assert!(state.file_tree[0].children[0].is_selected);
}

#[test]
fn file_selection_touches_one_node() {
    let mut state = root_state();
    state.load_directory_children("/p/src", Ok(src_listing())).unwrap();
    state.update_node_selection("/p/src/lib.rs", true, false);
    let flags: Vec<bool> = state.file_tree[0].children.iter().map(|c| c.is_selected).collect();
    assert_eq!(flags, vec![false, false, true, false]);
    assert!(!state.file_tree[0].is_selected);
    state.update_node_selection("/p/src", true, false);
    assert!(state.file_tree[0].is_selected);
    assert!(!state.file_tree[0].children[0].is_selected);
}

#[test]
fn expand_and_collapse_directories_only() {
    let mut state = root_state();
    state.expand_directory("/p/src");
    assert!(state.file_tree[0].is_expanded);
    assert!(!state.file_tree[0].children_loaded);
    state.expand_directory("/p/README.md");
    assert!(!state.file_tree[1].is_expanded);
    state.collapse_directory("/p/src");
    assert!(!state.file_tree[0].is_expanded);
}

#[test]
fn visible_nodes_follow_expansion() {
    let mut state = root_state();
    state.load_directory_children("/p/src", Ok(src_listing())).unwrap();
    let names = |s: &FileTreeState| -> Vec<String> {
        s.get_visible_nodes().iter().map(|n| n.name.clone()).collect()
    };
    assert_eq!(names(&state), vec!["src", "README.md"]);
    state.expand_directory("/p/src");
    assert_eq!(names(&state), vec!["src", "bin", "util", "lib.rs", "main.rs", "README.md"]);
}

#[test]
fn visible_nodes_filtered_by_query() {
    let mut state = root_state();
    state.load_directory_children("/p/src", Ok(src_listing())).unwrap();
    state.expand_directory("/p/src");
    state.search_query = "LIB".to_string();
    let names: Vec<String> = state.get_visible_nodes().iter().map(|n| n.name.clone()).collect();
    assert_eq!(names, vec!["lib.rs"]);
    state.search_query = "*.rs".to_string();
    let names: Vec<String> = state.get_visible_nodes().iter().map(|n| n.name.clone()).collect();
    assert_eq!(names, vec!["lib.rs", "main.rs"]);
    state.search_query = "src/**".to_string();
    let names: Vec<String> = state.get_visible_nodes().iter().map(|n| n.name.clone()).collect();
    assert_eq!(names, vec!["src", "bin", "util", "lib.rs", "main.rs"]);
}

#[test]
fn collapsed_directory_hides_matching_children() {
    let mut state = root_state();
    state.load_directory_children("/p/src", Ok(src_listing())).unwrap();
    state.search_query = "main".to_string();
    assert!(state.get_visible_nodes().is_empty());
}

#[test]
fn double_star_query_shows_what_empty_query_shows() {
    let mut state = root_state();
    state.load_directory_children("/p/src", Ok(src_listing())).unwrap();
    state.expand_directory("/p/src");
    let all: Vec<String> = state.get_visible_nodes().iter().map(|n| n.path.clone()).collect();
    state.search_query = "**".to_string();
    let star: Vec<String> = state.get_visible_nodes().iter().map(|n| n.path.clone()).collect();
    assert_eq!(all, star);
    assert_eq!(star.len(), 6);
}
