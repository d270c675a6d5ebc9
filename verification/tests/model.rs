use duplicate_finder::model::{Counts, Model, Status};
use duplicate_finder::rules::Exclusions;
use duplicate_finder::{paths, views};

fn model(files: &[(u64, u64, &str)]) -> Model {
    let mut model = Model::default();
    for (key, size, path) in files {
        model.add_file(*key, *size, path.to_string());
    }
    assert!(model.can_refresh());
    model.refresh();
    model
}

fn folder(model: &Model, path: &str) -> usize {
    (0..model.nodes.len()).find(|&n| model.node_path(n) == path).unwrap()
}

#[test]
fn files_and_folders() {
    let mut m = model(&[(7, 10, "/a/x"), (7, 0, "/a/b/x"), (8, 3, "/c/y")]);
    assert_eq!(m.files.len(), 3);
    assert_eq!(m.groups[m.files[1].group].size, 10);
    assert_eq!(m.add_file(7, 1, "/a/./b//x".to_string()), None);
    assert_eq!(m.find("//a/b/x"), Some(1));
    assert_eq!(m.find("/a/b"), None);
    assert_eq!(m.node_path(m.files[1].node), "/a/b");
    assert_eq!(m.node_path(m.files[2].node), "/c");
    let alive = m.groups[0].alive(&m.files);
    assert_eq!(alive, vec![0, 1]);
    assert!(m.is_visible(0) && !m.is_visible(2));
    let generation = m.generation;
    m.clear();
    assert!(m.files.is_empty() && m.nodes.is_empty());
    assert_eq!(m.generation, generation + 1);
}

#[test]
fn marks_and_statuses() {
    let mut m = model(&[(1, 5, "/a/x"), (1, 5, "/b/x"), (1, 5, "/c/x")]);
    assert_eq!(m.status(0), Status::Pending);
    m.keep_only(1);
    assert_eq!((m.status(0), m.status(1), m.status(2)), (Status::Delete, Status::Keep, Status::Delete));
    assert_eq!(m.deletable_files(), vec![0, 2]);
    assert!(!m.mark_keeping_one(1));
    assert!(!m.mark_keeping_one(0));
    m.set_marked(1, true);
    assert_eq!((m.status(0), m.status(1)), (Status::Conflict, Status::Conflict));
    m.set_marked(0, false);
    m.set_marked(2, false);
    assert!(m.mark_keeping_one(2));
    assert_eq!(m.status(0), Status::Keep);
    m.mark_removed(2);
    assert_eq!(m.status(0), Status::Keep);
    m.mark_removed(1);
    assert!(!m.is_visible(0));
    assert_eq!(m.status(0), Status::Pending);
}

#[test]
fn counts_of_folders() {
    let mut m = model(&[(1, 5, "/a/x"), (1, 5, "/a/b/x"), (2, 9, "/a/y"), (2, 9, "/c/y"), (3, 1, "/c/z")]);
    m.set_marked(1, true);
    m.set_marked(2, true);
    m.set_marked(3, true);
    m.refresh();
    let root = folder(&m, "/");
    let c = m.nodes[root].counts;
    assert_eq!((c.total, c.delete, c.keep, c.conflict, c.delete_bytes), (4, 3, 1, 2, 5));
    assert_eq!((m.totals.total, m.totals.delete_bytes), (4, 5));
    assert_eq!((m.visible_groups, m.wasted_bytes), (2, 14));
    assert_eq!(m.node_status(root), Status::Conflict);
    assert_eq!(m.node_status(folder(&m, "/a/b")), Status::Delete);
    assert_eq!(m.direct_file_count(folder(&m, "/a")), 2);
    assert_eq!(m.direct_file_count(root), 0);
    let children = m.visible_children(root);
    assert_eq!(children.iter().map(|&n| m.nodes[n].name.as_str()).collect::<Vec<_>>(), ["a", "c"]);
    // Counting again changes nothing until something else does.
    let generation = m.generation;
    m.refresh();
    assert_eq!(m.generation, generation);
    // What is deleted takes no more than what can be recovered.
    assert!(m.totals.delete_bytes <= m.wasted_bytes);
    let mut huge = Model::default();
    for (i, path) in ["/a", "/b", "/c"].iter().enumerate() {
        huge.add_file(1, u64::MAX, format!("{path}/{i}"));
    }
    assert!(!huge.can_refresh());
    let mut counts = Counts::default();
    duplicate_finder::model::add_counts(&mut counts, c);
    assert_eq!(counts.total, 4);
}

#[test]
fn labels_of_the_tree() {
    let m = model(&[(1, 5, "/home/moi/a/x"), (1, 5, "/home/moi/b/x"), (2, 1, "/srv/only")]);
    let root = folder(&m, "/");
    let (n, label) = m.tree_label(root, '/');
    assert_eq!(label, "/home/moi");
    assert_eq!(n, folder(&m, "/home/moi"));
    let (n, label) = m.tree_label(folder(&m, "/home/moi/a"), '\\');
    assert_eq!((m.node_path(n), label), ("/home/moi/a".to_string(), "a".to_string()));
    assert_eq!(m.tree_label(folder(&m, "/home"), '\\').1, "home\\moi");
}

#[test]
fn groups_in_order() {
    let mut m = model(&[
        (1, 5, "/a/1"), (1, 5, "/b/1"),
        (2, 9, "/a/2"), (2, 9, "/b/2"),
        (3, 5, "/a/3"), (3, 5, "/b/3"),
        (4, 4, "/a/4"), (4, 4, "/b/4"), (4, 4, "/c/4"),
        (5, 99, "/a/5"),
    ]);
    assert_eq!(m.sorted_groups(), vec![1, 3, 2, 0]);
    assert_eq!(m.group_status(0), Status::Pending);
    m.set_marked(0, true);
    assert_eq!(m.group_status(0), Status::Keep);
    m.set_marked(1, true);
    assert_eq!(m.group_status(0), Status::Conflict);
    m.set_marked(6, true);
    assert_eq!(m.group_status(3), Status::Delete);
    assert_eq!(m.group_row(3), ("4 B × 3   4".to_string(), 6));
    m.mark_removed(6);
    assert_eq!(m.group_row(3), ("4 B × 2   4".to_string(), 7));
    let groups = m.marked_groups();
    assert!(groups.is_empty());
    m.set_marked(0, false);
    let groups = m.marked_groups();
    assert_eq!(groups.len(), 1);
    assert_eq!((groups[0].keepers[0].as_str(), groups[0].targets[0].as_str()), ("/a/1", "/b/1"));
}

#[test]
fn hidden_results() {
    let mut m = model(&[(1, 5, "/a/x"), (1, 5, "/b/x"), (1, 5, "/b/c/x")]);
    m.set_marked(1, true);
    let excl = Exclusions::new(&vec!["/b/".to_string()]).unwrap();
    let nodes = m.excluded_nodes(&excl);
    assert!(nodes[m.files[1].node] && nodes[m.files[2].node] && !nodes[m.files[0].node]);
    m.apply_exclusions(&excl);
    assert!(m.files[1].excluded && m.files[2].excluded && !m.files[1].marked);
    assert!(!m.is_visible(0));
    m.apply_exclusions(&Exclusions::default());
    assert!(m.files.iter().all(|f| !f.excluded));
    m.apply_exclusions_to(&excl, &[2]);
    assert!(m.files[2].excluded && !m.files[1].excluded);
    m.apply_exclusions_to(&Exclusions::new(&vec!["*x".to_string()]).unwrap(), &[0]);
    assert!(m.files[0].excluded);
}

#[test]
fn texts_that_are_shown() {
    assert_eq!(views::size_label(1_234), "1.23 kB");
    assert_eq!(views::file_name("/a/b.txt"), "b.txt");
    assert_eq!(views::file_name("/"), "/");
    assert_eq!(views::status_text(Status::Keep), "Conservé (tous ses doublons sont marqués)");
    assert_eq!(views::legend_text(Status::Conflict), "tous marqués");
    assert_eq!(views::file_text(1_000, 3), "1 kB · 3 exemplaires");
    assert_eq!(views::totals_text(2, 5, 0), "2 groupes · 5 fichiers · 0 B récupérables");
    assert_eq!(views::deletable_text(3, 5), "À supprimer : 3 (5 B)");
    let mut c = Counts::default();
    c.total = 3;
    assert_eq!(views::folder_text(&c), "3 fichier(s)");
    assert_eq!(views::folder_ticks(&c), (false, false));
    c.delete = 2;
    c.delete_bytes = 20;
    assert_eq!(views::folder_text(&c), "3 fichier(s) · 2 marqué(s), 20 B");
    assert_eq!(views::folder_ticks(&c), (false, true));
    c.delete = 3;
    assert_eq!(views::folder_ticks(&c), (true, false));
    let mut p = duplicate_finder::scanner::ScanProgress::default();
    p.files_seen = 12;
    p.bytes_seen = 3_000;
    p.files_hashed = 4;
    p.bytes_hashed = 50;
    p.pending_jobs = 6;
    assert_eq!(views::progress_text(&p), "Parcourus : 12 fichiers (3 kB) · hachés : 4 (50 B) · en attente : 6");
    p.walking = true;
    assert!(views::progress_text(&p).starts_with("Parcours : 12"));
}

#[test]
fn paths_as_texts() {
    assert_eq!(paths::path_parts("/a//b/./c/"), ["/", "a", "b", "c"]);
    assert_eq!(paths::path_parts("./a/.."), [".", "a", ".."]);
    assert!(paths::paths_equal("/a/b/", "/a/./b"));
    assert!(!paths::paths_equal("a", "/a"));
    assert!(paths::path_within("/a/b", "/a") && !paths::path_within("/ab", "/a"));
    assert!(paths::path_before("/a/b", "/a-b") && paths::path_before("/a", "/a/b"));
    assert_eq!(paths::path_extension("/x/a.tar.gz"), Some("gz".to_string()));
    assert_eq!(paths::path_extension("/x/.bashrc"), None);
    assert_eq!(paths::path_file_name("/x/.."), None);
    assert_eq!(paths::canonical("/a//b/"), "/a/b");
}

#[test]
fn counts_are_out_of_date_only_when_something_changed() {
    let mut m = model(&[(1, 5, "/a/x"), (1, 5, "/b/x")]);
    m.set_marked(0, false);
    m.apply_exclusions(&Exclusions::default());
    m.set_marked_subtree(m.files[1].node, false);
    assert_eq!(m.add_file(2, 1, "/a/x".to_string()), None);
    assert!(!m.dirty);
    assert!(m.mark_keeping_one(0));
    assert!(m.dirty);
    m.refresh();
    assert_eq!((m.totals.delete, m.totals.keep), (1, 1));
    m.keep_only(1);
    assert!(!m.dirty);
    m.keep_only(0);
    assert!(m.dirty);
}

#[test]
fn files_of_one_key_share_a_group() {
    let mut m = Model::default();
    m.add_file(7, 10, "/a/x".to_string());
    m.add_file(8, 20, "/a/y".to_string());
    m.set_marked(0, true);
    assert!(m.can_refresh());
    m.refresh();
    m.mark_removed(0);
    m.add_file(7, 99, "/b/x".to_string());
    m.add_file(9, 30, "/b/y".to_string());
    assert_eq!(m.files[0].group, m.files[2].group);
    assert_ne!(m.files[1].group, m.files[2].group);
    assert_ne!(m.files[2].group, m.files[3].group);
    assert_eq!(m.groups[m.files[2].group].size, 10);
    assert!(m.groups.iter().all(|g| !g.files.is_empty()));
}

#[test]
fn one_folder_for_each_missing_step() {
    let mut m = Model::default();
    m.add_file(1, 1, "/a/b/c/x".to_string());
    assert_eq!(m.nodes.len(), 4);
    m.add_file(1, 1, "/a/b/c/y".to_string());
    assert_eq!(m.nodes.len(), 4);
    assert_eq!(m.files[0].node, m.files[1].node);
    m.add_file(1, 1, "/a/b/z".to_string());
    assert_eq!(m.nodes.len(), 4);
    m.add_file(1, 1, "/a/d/e/x".to_string());
    assert_eq!(m.nodes.len(), 6);
    m.add_file(1, 1, "/a/b//./d/x".to_string());
    assert_eq!(m.nodes.len(), 7);
}

#[test]
fn what_is_handed_over_for_deletion() {
    let mut m = model(&[
        (1, 5, "/a/1"),
        (2, 5, "/a/2"),
        (1, 5, "/b/1"),
        (3, 5, "/a/3"),
        (2, 5, "/b/2"),
        (1, 5, "/c/1"),
        (3, 5, "/b/3"),
    ]);
    for f in [2, 5, 1, 3, 6] {
        m.set_marked(f, true);
    }
    let handed: Vec<String> = m.marked_groups().into_iter().flat_map(|g| g.targets).collect();
    assert_eq!(handed, vec!["/b/1", "/c/1", "/a/2"]);
    let mut deleted: Vec<String> = m.deletable_files().into_iter().map(|f| m.files[f].path.clone()).collect();
    let mut sorted = handed.clone();
    deleted.sort();
    sorted.sort();
    assert_eq!(deleted, sorted);
}

#[test]
fn top_folders_add_up_to_the_totals() {
    let mut m = model(&[
        (1, 5, "/a/1"),
        (1, 5, "b/1"),
        (1, 5, "c/d/1"),
        (2, 7, "b/2"),
        (2, 7, "c/2"),
        (3, 9, "c/3"),
    ]);
    m.set_marked(1, true);
    m.set_marked(3, true);
    m.set_marked(4, true);
    assert!(m.can_refresh());
    m.refresh();
    let tops = m.roots.values();
    assert_eq!(tops.len(), 3);
    let sum = |field: &dyn Fn(&Counts) -> u64| tops.iter().map(|&n| field(&m.nodes[n].counts)).sum::<u64>();
    assert_eq!(sum(&|c| c.total as u64), 5);
    assert_eq!(sum(&|c| c.total as u64), m.totals.total as u64);
    assert_eq!(sum(&|c| c.delete as u64), m.totals.delete as u64);
    assert_eq!(sum(&|c| c.keep as u64), m.totals.keep as u64);
    assert_eq!(sum(&|c| c.conflict as u64), 2);
    assert_eq!(sum(&|c| c.conflict as u64), m.totals.conflict as u64);
    assert_eq!(sum(&|c| c.delete_bytes), 5);
    assert_eq!(sum(&|c| c.delete_bytes), m.totals.delete_bytes);
    // The file without a copy is not shown.
    assert_eq!(m.visible_files(folder(&m, "c")), vec![4]);
    assert!(m.visible_files(folder(&m, "c/d")) == vec![2]);
}
