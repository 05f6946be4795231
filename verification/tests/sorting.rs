use crabsort::file_types::{calculate_file_type, file_type_of_header, type_dir, FileType};
use crabsort::sorting::{
    files_to_move, fix_duplicates_in_dir, join_path, split_supported_unsupported, DirEntryInfo,
};
use crabsort::widgets::ui_filelist::FileTreeItem;

fn entry(path: &str, name: Option<&str>, is_dir: bool, kind: Option<FileType>) -> DirEntryInfo {
    DirEntryInfo { path: path.to_string(), name: name.map(|n| n.to_string()), is_dir, kind }
}

fn leaf(p: &str) -> FileTreeItem {
    FileTreeItem { path: p.to_string(), children: vec![] }
}

fn group(p: &str, files: &[&str]) -> FileTreeItem {
    FileTreeItem { path: p.to_string(), children: files.iter().map(|f| leaf(f)).collect() }
}

#[test]
fn mime_types_map_to_kinds() {
    assert!(calculate_file_type("image/jpeg", "jpg") == Some(FileType::Image));
    assert!(calculate_file_type("image/gif", "gif") == Some(FileType::AnimatedImage));
    assert!(calculate_file_type("video/mp4", "mp4") == Some(FileType::Video));
    assert!(calculate_file_type("audio/mpeg", "mp3") == Some(FileType::Audio));
    assert!(calculate_file_type("application/pdf", "pdf") == Some(FileType::Document));
    assert!(calculate_file_type("text/plain", "txt") == Some(FileType::Text));
    assert!(calculate_file_type("text/csv", "csv") == Some(FileType::Table));
    assert!(calculate_file_type("application/zip", "zip") == Some(FileType::Archive));
    assert!(calculate_file_type("application/x-executable", "elf") == Some(FileType::Application));
    assert!(calculate_file_type("application/json", "json") == Some(FileType::Code));
    assert!(calculate_file_type("application/x-unknown", "bin").is_none());
    assert!(calculate_file_type("image/png", "anything") == Some(FileType::Image));
}

#[test]
fn kinds_map_to_folders() {
    assert_eq!(type_dir(&FileType::Image), Some("images"));
    assert_eq!(type_dir(&FileType::AnimatedImage), Some("images/animated"));
    assert_eq!(type_dir(&FileType::Video), Some("videos"));
    assert_eq!(type_dir(&FileType::Audio), Some("audios"));
    assert_eq!(type_dir(&FileType::Document), Some("documents"));
    assert_eq!(type_dir(&FileType::Text), Some("texts"));
    assert_eq!(type_dir(&FileType::Table), Some("tables"));
    assert_eq!(type_dir(&FileType::Application), Some("applications"));
    assert_eq!(type_dir(&FileType::Code), Some("code"));
    assert_eq!(type_dir(&FileType::Archive), None);
}

#[test]
fn headers_are_recognised() {
    let png = [0x89u8, 0x50, 0x4E, 0x47, 0x0D, 0x0A, 0x1A, 0x0A, 0, 0, 0, 13];
    assert!(file_type_of_header(&png) == Some(FileType::Image));
    let pdf = b"%PDF-1.4\n";
    assert!(file_type_of_header(pdf) == Some(FileType::Document));
    let gz = [0x1fu8, 0x8b, 0x08, 0, 0, 0, 0, 0];
    assert!(file_type_of_header(&gz) == Some(FileType::Archive));
    assert!(file_type_of_header(b"").is_none());
}

#[test]
fn paths_join_like_path_join() {
    assert_eq!(join_path("dir", "images"), "dir/images");
    assert_eq!(join_path("dir/", "images"), "dir/images");
    assert_eq!(join_path("", "images"), "images");
    assert_eq!(join_path("/", "x"), "/x");
    assert_eq!(join_path("a", ""), "a/");
}

#[test]
fn plan_groups_files_by_target_folder() {
    let entries = vec![
        entry("d/p.png", Some("p.png"), false, Some(FileType::Image)),
        entry("d/sub", Some("sub"), true, None),
        entry("d/.hidden", Some(".hidden"), false, Some(FileType::Image)),
        entry("d/x.bin", Some("x.bin"), false, None),
        entry("d/a.zip", Some("a.zip"), false, Some(FileType::Archive)),
        entry("d/q.jpg", Some("q.jpg"), false, Some(FileType::Image)),
        entry("d/s.mp4", Some("s.mp4"), false, Some(FileType::Video)),
        entry("d/raw", None, false, Some(FileType::Text)),
    ];
    let plan = fix_duplicates_in_dir("d", entries);
    assert_eq!(plan.len(), 3);
    assert_eq!(plan[0].path, "d/images");
    let imgs: Vec<&str> = plan[0].children.iter().map(|c| c.path.as_str()).collect();
    assert_eq!(imgs, vec!["d/p.png", "d/q.jpg"]);
    assert_eq!(plan[1].path, "unsupported");
    assert_eq!(plan[1].children[0].path, "d/x.bin");
    assert_eq!(plan[2].path, "d/videos");
    assert!(plan.iter().all(|g| g.children.iter().all(|c| c.children.is_empty())));
}

#[test]
fn split_and_count() {
    let plan = vec![group("d/images", &["a", "b"]), group("unsupported", &["c"]), group("d/videos", &["e"])];
    assert_eq!(files_to_move(&plan), 3);
    let (moved, kept) = split_supported_unsupported(plan);
    assert_eq!(moved.len(), 2);
    assert_eq!(moved[0].path, "d/images");
    assert_eq!(moved[1].path, "d/videos");
    assert_eq!(kept.len(), 1);
    assert_eq!(kept[0].path, "unsupported");
}

#[test]
fn plan_names_each_folder_once_and_each_file_once() {
    let entries = vec![
        entry("d/1.png", Some("1.png"), false, Some(FileType::Image)),
        entry("d/2.mp4", Some("2.mp4"), false, Some(FileType::Video)),
        entry("d/3.png", Some("3.png"), false, Some(FileType::Image)),
        entry("d/4.bin", Some("4.bin"), false, None),
        entry("d/5.mp4", Some("5.mp4"), false, Some(FileType::Video)),
        entry("d/6.bin", Some("6.bin"), false, None),
    ];
    let plan = fix_duplicates_in_dir("d", entries);
    let mut folders: Vec<&str> = plan.iter().map(|g| g.path.as_str()).collect();
    assert_eq!(folders, vec!["d/images", "d/videos", "unsupported"]);
    folders.dedup();
    assert_eq!(folders.len(), 3);
    let mut files: Vec<&str> = plan.iter().flat_map(|g| g.children.iter().map(|c| c.path.as_str())).collect();
    assert_eq!(files.len(), 6);
    files.sort();
    files.dedup();
    assert_eq!(files.len(), 6);
}
