//! Folder-graph behavior through the engine: layout building, moves, and
//! recursive deletion.

use yy_boss::folder_graph::PathKind;
use yy_boss::{
    AssociatedData, DeleteFolderError, FolderGraphError, Resource, YyFile, YypBoss,
};

fn ready_boss() -> YypBoss {
    let mut boss = YypBoss::new();
    boss.finish_loading();
    boss
}

fn seg(parts: &[&str]) -> Vec<String> {
    parts.iter().map(|p| p.to_string()).collect()
}

fn sprite(name: &str, parent: &[&str]) -> YyFile {
    YyFile {
        name: name.to_string(),
        parent: seg(parent),
        data: "{}".to_string(),
    }
}

fn payload() -> AssociatedData {
    AssociatedData {
        payload: "png-bytes".to_string(),
        stale_files: Vec::new(),
        stale_folders: Vec::new(),
    }
}

#[test]
fn add_complex_folder_layout() {}

#[test]
fn delete_folder_recursively() {}

#[test]
fn builds_a_nested_layout() {
    let mut boss = ready_boss();
    let root = seg(&[]);
    let enemies = boss.add_folder_to_end(&root, "Enemies".to_string()).unwrap();
    let sub = boss.add_folder_to_end(&enemies, "Sub".to_string()).unwrap();
    boss.add_folder_to_end(&root, "Allies".to_string()).unwrap();
    assert_eq!(sub, seg(&["Enemies", "Sub"]));
    boss.add_resource(Resource::Object, sprite("obj_slime", &["Enemies"]), payload())
        .unwrap();
    boss.add_resource(Resource::Object, sprite("obj_bat", &["Enemies", "Sub"]), payload())
        .unwrap();
    let (folders, files) = boss.get_full_vfs();
    assert_eq!(folders.len(), 3);
    assert_eq!(files.len(), 2);
    assert_eq!(boss.get_path_type(&seg(&["Enemies", "Sub"])), Ok(PathKind::Folder));
    assert_eq!(
        boss.get_path_type(&seg(&["Enemies", "obj_slime"])),
        Ok(PathKind::File)
    );
    assert_eq!(
        boss.get_path_type(&seg(&["Nowhere"])),
        Err(FolderGraphError::PathNotFound)
    );
    // the subtree under Enemies holds both folders below it and its files
    let (sub_folders, sub_files) = boss.get_folder(&seg(&["Enemies"])).unwrap();
    assert_eq!(sub_folders.len(), 2);
    assert_eq!(sub_files.len(), 2);
}

#[test]
fn duplicate_folder_rejected() {
    let mut boss = ready_boss();
    let root = seg(&[]);
    boss.add_folder_to_end(&root, "Enemies".to_string()).unwrap();
    assert_eq!(
        boss.add_folder_to_end(&root, "Enemies".to_string()),
        Err(FolderGraphError::FolderAlreadyPresent)
    );
    assert_eq!(
        boss.add_folder_to_end(&seg(&["Missing"]), "X".to_string()),
        Err(FolderGraphError::PathNotFound)
    );
    boss.add_resource(Resource::Script, sprite("scr_util", &[]), payload())
        .unwrap();
    assert_eq!(
        boss.add_folder_to_end(&root, "scr_util".to_string()),
        Err(FolderGraphError::FileAlreadyPresent)
    );
}

#[test]
fn move_into_descendant_rejected_and_tree_unchanged() {
    // create folder "Enemies" under root, a resource inside it, a subfolder
    // "Sub" inside "Enemies"; moving "Enemies" into "Enemies/Sub" fails
    let mut boss = ready_boss();
    let root = seg(&[]);
    let enemies = boss.add_folder_to_end(&root, "Enemies".to_string()).unwrap();
    boss.add_resource(Resource::Object, sprite("obj_slime", &["Enemies"]), payload())
        .unwrap();
    boss.add_folder_to_end(&enemies, "Sub".to_string()).unwrap();
    let before = boss.get_full_vfs();
    let r = boss.move_item(&seg(&["Enemies"]), &seg(&["Enemies", "Sub"]));
    assert_eq!(r, Err(FolderGraphError::InvalidMove));
    // moving a folder into itself is just as degenerate
    let r = boss.move_item(&seg(&["Enemies"]), &seg(&["Enemies"]));
    assert_eq!(r, Err(FolderGraphError::InvalidMove));
    let after = boss.get_full_vfs();
    assert_eq!(before.0, after.0);
    assert_eq!(before.1.len(), after.1.len());
}

#[test]
fn move_folder_rebases_subtree() {
    let mut boss = ready_boss();
    let root = seg(&[]);
    boss.add_folder_to_end(&root, "Enemies".to_string()).unwrap();
    boss.add_folder_to_end(&root, "Archive".to_string()).unwrap();
    boss.add_folder_to_end(&seg(&["Enemies"]), "Sub".to_string()).unwrap();
    boss.add_resource(Resource::Object, sprite("obj_bat", &["Enemies", "Sub"]), payload())
        .unwrap();
    boss.move_item(&seg(&["Enemies"]), &seg(&["Archive"])).unwrap();
    let (folders, files) = boss.get_full_vfs();
    assert!(folders.contains(&seg(&["Archive", "Enemies"])));
    assert!(folders.contains(&seg(&["Archive", "Enemies", "Sub"])));
    assert!(!folders.contains(&seg(&["Enemies"])));
    assert_eq!(files[0].parent, seg(&["Archive", "Enemies", "Sub"]));
}

#[test]
fn move_file_updates_index_record() {
    let mut boss = ready_boss();
    let root = seg(&[]);
    boss.add_folder_to_end(&root, "Enemies".to_string()).unwrap();
    boss.add_resource(Resource::Object, sprite("obj_slime", &[]), payload())
        .unwrap();
    boss.move_item(&seg(&["obj_slime"]), &seg(&["Enemies"])).unwrap();
    let descriptor = boss.lookup_resource(&"obj_slime".to_string()).unwrap();
    assert_eq!(descriptor.parent_location, seg(&["Enemies"]));
    let (_, files) = boss.get_full_vfs();
    assert_eq!(files[0].parent, seg(&["Enemies"]));
}

#[test]
fn delete_folder_checks_and_cascades() {
    let mut boss = ready_boss();
    let root = seg(&[]);
    boss.add_folder_to_end(&root, "Enemies".to_string()).unwrap();
    boss.add_folder_to_end(&seg(&["Enemies"]), "Sub".to_string()).unwrap();
    boss.add_resource(Resource::Object, sprite("obj_slime", &["Enemies"]), payload())
        .unwrap();
    boss.add_resource(Resource::Object, sprite("obj_bat", &["Enemies", "Sub"]), payload())
        .unwrap();
    let before = boss.get_full_vfs();
    // a non-recursive delete of a non-empty folder fails and changes nothing
    let r = boss.delete_folder(&seg(&["Enemies"]), false);
    assert_eq!(
        r,
        Err(DeleteFolderError::FolderGraphError(FolderGraphError::NotEmpty))
    );
    let after = boss.get_full_vfs();
    assert_eq!(before.0, after.0);
    assert_eq!(before.1.len(), after.1.len());
    // the recursive delete removes the subtree and every contained resource
    boss.delete_folder(&seg(&["Enemies"]), true).unwrap();
    let (folders, files) = boss.get_full_vfs();
    assert_eq!(folders.len(), 0);
    assert_eq!(files.len(), 0);
    assert!(!boss.resource_exists(&"obj_slime".to_string()));
    assert!(!boss.resource_exists(&"obj_bat".to_string()));
    assert_eq!(boss.resource_count(), 0);
}
