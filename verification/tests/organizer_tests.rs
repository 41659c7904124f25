use dorg::config::{get_settings_file, get_settings_folder};
use dorg::organizer::{CleaningMode, Organizer, sort_downloads};
use dorg::paths::{extension_of, file_name_of, is_under, join_path};
use dorg::rules::RuleSet;

fn default_org(root: &str) -> Organizer {
    Organizer::new(Organizer::get_default_rules(), root.to_string())
}

#[test]
fn default_rules_hold_the_two_builtins() {
    let r = Organizer::get_default_rules();
    assert_eq!(r.len(), 2);
    let (k0, v0) = r.pair(0);
    let (k1, v1) = r.pair(1);
    assert_eq!(k0, "exe");
    assert_eq!(v0, "Executables");
    assert_eq!(k1, "torrent");
    assert_eq!(v1, "MetaInfo");
}

#[test]
fn rule_set_insert_sorts_and_overwrites() {
    let mut r = RuleSet::new();
    r.insert("mkv".to_string(), "Video".to_string());
    r.insert("avi".to_string(), "Video".to_string());
    r.insert("zip".to_string(), "Archives".to_string());
    assert_eq!(r.len(), 3);
    assert_eq!(r.pair(0).0, "avi");
    assert_eq!(r.pair(1).0, "mkv");
    assert_eq!(r.pair(2).0, "zip");
    r.insert("mkv".to_string(), "Movies".to_string());
    assert_eq!(r.len(), 3);
    assert_eq!(r.get(&"mkv".to_string()), Some(&"Movies".to_string()));
    assert_eq!(r.get(&"avi".to_string()), Some(&"Video".to_string()));
    assert_eq!(r.get(&"png".to_string()), None);
    assert!(r.contains_key(&"zip".to_string()));
    assert!(!r.contains_key(&"png".to_string()));
}

#[test]
fn rule_set_insert_before_existing_keys() {
    let mut r = Organizer::get_default_rules();
    r.insert("avi".to_string(), "Video".to_string());
    assert_eq!(r.pair(0).0, "avi");
    assert_eq!(r.pair(1).0, "exe");
    assert_eq!(r.pair(2).0, "torrent");
    assert_eq!(r.get(&"exe".to_string()), Some(&"Executables".to_string()));
}

#[test]
fn sort_routes_the_example_scenario() {
    let org = default_org("/home/user/Downloads");
    let items = vec![
        "/home/user/Downloads/setup.exe".to_string(),
        "/home/user/Downloads/movie.torrent".to_string(),
        "/home/user/Downloads/notes.txt".to_string(),
    ];
    let plan = sort_downloads(&org, &items);
    assert_eq!(plan.len(), 2);
    assert_eq!(plan[0].source, "/home/user/Downloads/setup.exe");
    assert_eq!(plan[0].dest_dir, "/home/user/Downloads/Executables");
    assert_eq!(plan[0].dest_file, "/home/user/Downloads/Executables/setup.exe");
    assert_eq!(plan[1].source, "/home/user/Downloads/movie.torrent");
    assert_eq!(plan[1].dest_dir, "/home/user/Downloads/MetaInfo");
    assert_eq!(plan[1].dest_file, "/home/user/Downloads/MetaInfo/movie.torrent");
}

#[test]
fn sort_skips_unmapped_and_extensionless_files() {
    let org = default_org("/d");
    let items = vec![
        "/d/README".to_string(),
        "/d/.bashrc".to_string(),
        "/d/archive.tar.gz".to_string(),
        "/d/notes.txt".to_string(),
    ];
    let plan = sort_downloads(&org, &items);
    assert_eq!(plan.len(), 0);
}

#[test]
fn sort_is_idempotent_over_the_leftovers() {
    let org = default_org("/d");
    let items = vec![
        "/d/a.exe".to_string(),
        "/d/b.txt".to_string(),
        "/d/c.torrent".to_string(),
    ];
    let plan = sort_downloads(&org, &items);
    assert_eq!(plan.len(), 2);
    let moved: Vec<String> = plan.iter().map(|a| a.source.clone()).collect();
    let leftover: Vec<String> = items.iter().filter(|f| !moved.contains(f)).cloned().collect();
    assert_eq!(leftover, vec!["/d/b.txt".to_string()]);
    let again = sort_downloads(&org, &leftover);
    assert_eq!(again.len(), 0);
}

#[test]
fn add_rule_routes_new_extension_despite_reads() {
    let mut org = default_org("/home/u/Dl");
    org.add_rule("txt".to_string(), "Text".to_string());
    // read operations in between must not disturb the rules
    assert!(org.rules.contains_key(&"txt".to_string()));
    assert_eq!(org.rules.get(&"exe".to_string()), Some(&"Executables".to_string()));
    let items = vec!["/home/u/Dl/notes.txt".to_string()];
    let plan = sort_downloads(&org, &items);
    assert_eq!(plan.len(), 1);
    assert_eq!(plan[0].dest_dir, "/home/u/Dl/Text");
    assert_eq!(plan[0].dest_file, "/home/u/Dl/Text/notes.txt");
}

#[test]
fn reassign_target_directory_keeps_rules() {
    let mut org = default_org("/old");
    org.reassign_target_directory("/new/place".to_string());
    assert_eq!(org.sorting_path, "/new/place");
    let items = vec!["/new/place/setup.exe".to_string()];
    let plan = sort_downloads(&org, &items);
    assert_eq!(plan.len(), 1);
    assert_eq!(plan[0].dest_dir, "/new/place/Executables");
}

#[test]
fn clean_by_extension_selects_exactly_that_extension() {
    let org = default_org("/t");
    let files = vec![
        "/t/a.tmp".to_string(),
        "/t/sub/b.tmp".to_string(),
        "/t/sub/deep/c.tmp".to_string(),
        "/t/keep.txt".to_string(),
        "/t/sub/keep.exe".to_string(),
        "/t/tmp".to_string(),
    ];
    let gone = org.run_clean(&CleaningMode::Extension, &"tmp".to_string(), &files);
    assert_eq!(
        gone,
        vec![
            "/t/a.tmp".to_string(),
            "/t/sub/b.tmp".to_string(),
            "/t/sub/deep/c.tmp".to_string(),
        ]
    );
    assert!(!gone.contains(&"/t/keep.txt".to_string()));
    assert!(!gone.contains(&"/t/tmp".to_string()));
}

#[test]
fn clean_by_subdirectory_selects_only_files_under_it() {
    let org = default_org("/t");
    let files = vec![
        "/t/a.tmp".to_string(),
        "/t/sub/b.tmp".to_string(),
        "/t/sub/deep/c.txt".to_string(),
        "/t/subx/d.txt".to_string(),
    ];
    let gone = org.run_clean(&CleaningMode::Directory, &"sub".to_string(), &files);
    assert_eq!(gone, vec!["/t/sub/b.tmp".to_string(), "/t/sub/deep/c.txt".to_string()]);
}

#[test]
fn clean_entire_root_selects_every_file() {
    let org = default_org("/t");
    let files = vec![
        "/t/a.tmp".to_string(),
        "/t/sub/b.exe".to_string(),
        "/t/sub/deep/c".to_string(),
    ];
    let gone = org.run_clean(&CleaningMode::RootDir, &"".to_string(), &files);
    assert_eq!(gone.len(), files.len());
    assert_eq!(gone, files);
}

#[test]
fn cleaning_mode_names() {
    assert_eq!(CleaningMode::Extension.to_string(), "extension");
    assert_eq!(CleaningMode::Directory.to_string(), "directory");
    assert_eq!(CleaningMode::RootDir.to_string(), "root-dir");
}

#[test]
fn join_path_appends_relative_and_replaces_absolute() {
    assert_eq!(join_path("/a/b", "c"), "/a/b/c");
    assert_eq!(join_path("/a/b", "c/d"), "/a/b/c/d");
    assert_eq!(join_path("/a/b", "/abs/path"), "/abs/path");
    assert_eq!(join_path("", "rel"), "/rel");
}

#[test]
fn extension_rules_match_path_extension_reading() {
    assert_eq!(extension_of("/d/a.txt"), Some("txt".to_string()));
    assert_eq!(extension_of("/d/archive.tar.gz"), Some("gz".to_string()));
    assert_eq!(extension_of("/d/.bashrc"), None);
    assert_eq!(extension_of("/d/README"), None);
    assert_eq!(extension_of("/d/trailing."), Some("".to_string()));
    assert_eq!(file_name_of("/d/sub/a.txt"), "a.txt");
    assert_eq!(file_name_of("plain"), "plain");
}

#[test]
fn is_under_requires_a_separator_boundary() {
    assert!(is_under("/t/sub/x", "/t/sub"));
    assert!(!is_under("/t/subx/y", "/t/sub"));
    assert!(!is_under("/t/sub", "/t/sub"));
}

#[test]
fn settings_paths_are_fixed_under_the_config_root() {
    assert_eq!(get_settings_folder("/home/u/.config"), "/home/u/.config/Downloads Organizer");
    assert_eq!(
        get_settings_file("/home/u/.config"),
        "/home/u/.config/Downloads Organizer/dorg_config.json"
    );
}
