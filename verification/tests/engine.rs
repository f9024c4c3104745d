//! Engine behavior: resource lifecycle, the name index, write-back plans,
//! and the round trip through the project descriptor.

use yy_boss::yy_resource_handler::FsAction;
use yy_boss::{
    AssociatedData, ProjectDescriptor, ProjectEntry, Resource, ResourceManipulationError,
    SerializedData, SerializedDataError, YyFile, YypBoss,
};

fn ready_boss() -> YypBoss {
    let mut boss = YypBoss::new();
    boss.finish_loading();
    boss
}

fn seg(parts: &[&str]) -> Vec<String> {
    parts.iter().map(|p| p.to_string()).collect()
}

fn def(name: &str, parent: &[&str], body: &str) -> YyFile {
    YyFile {
        name: name.to_string(),
        parent: seg(parent),
        data: body.to_string(),
    }
}

fn data_with(stale: &[&str]) -> AssociatedData {
    AssociatedData {
        payload: "payload".to_string(),
        stale_files: stale.iter().map(|p| p.to_string()).collect(),
        stale_folders: Vec::new(),
    }
}

#[test]
fn leaf_count_always_matches_index() {
    let mut boss = ready_boss();
    assert_eq!(boss.file_leaf_count(), boss.resource_count());
    boss.add_folder_to_end(&seg(&[]), "Stuff".to_string()).unwrap();
    assert_eq!(boss.file_leaf_count(), boss.resource_count());
    boss.add_resource(Resource::Sprite, def("spr_a", &[], "{}"), data_with(&[]))
        .unwrap();
    assert_eq!(boss.file_leaf_count(), boss.resource_count());
    boss.add_resource(Resource::Script, def("scr_b", &["Stuff"], "{}"), data_with(&[]))
        .unwrap();
    assert_eq!(boss.file_leaf_count(), boss.resource_count());
    boss.remove_resource(Resource::Sprite, &"spr_a".to_string()).unwrap();
    assert_eq!(boss.file_leaf_count(), boss.resource_count());
    boss.delete_folder(&seg(&["Stuff"]), true).unwrap();
    assert_eq!(boss.file_leaf_count(), boss.resource_count());
    assert_eq!(boss.resource_count(), 0);
}

#[test]
fn add_twice_collides_and_keeps_first_state() {
    let mut boss = ready_boss();
    boss.add_resource(Resource::Sprite, def("spr_x", &[], "{\"a\":1}"), data_with(&[]))
        .unwrap();
    let count = boss.resource_count();
    // even another kind cannot reuse the name: uniqueness is global
    let r = boss.add_resource(Resource::Script, def("spr_x", &[], "{}"), data_with(&[]));
    assert_eq!(r, Err(ResourceManipulationError::NameCollision));
    assert_eq!(boss.resource_count(), count);
    let (got, _) = boss.get_resource(Resource::Sprite, &"spr_x".to_string()).unwrap();
    assert_eq!(got.data, "{\"a\":1}".to_string());
}

#[test]
fn replace_requires_existing_and_reuses_location() {
    let mut boss = ready_boss();
    let r = boss.replace_resource(Resource::Sprite, def("spr_x", &[], "{}"), data_with(&[]));
    assert_eq!(r, Err(ResourceManipulationError::NotFound));
    boss.add_folder_to_end(&seg(&[]), "Art".to_string()).unwrap();
    boss.add_resource(Resource::Sprite, def("spr_x", &["Art"], "{\"v\":1}"), data_with(&[]))
        .unwrap();
    // a replace arriving with another parent still lands at the old spot
    boss.replace_resource(Resource::Sprite, def("spr_x", &[], "{\"v\":2}"), data_with(&[]))
        .unwrap();
    let d = boss.lookup_resource(&"spr_x".to_string()).unwrap();
    assert_eq!(d.parent_location, seg(&["Art"]));
    let (got, _) = boss.get_resource(Resource::Sprite, &"spr_x".to_string()).unwrap();
    assert_eq!(got.data, "{\"v\":2}".to_string());
    // the wrong kind does not see it
    let r = boss.replace_resource(Resource::Script, def("spr_x", &[], "{}"), data_with(&[]));
    assert_eq!(r, Err(ResourceManipulationError::NotFound));
}

#[test]
fn set_adds_or_replaces() {
    let mut boss = ready_boss();
    boss.set_resource(Resource::Script, def("scr_a", &[], "{\"v\":1}"), data_with(&[]))
        .unwrap();
    assert!(boss.resource_exists(&"scr_a".to_string()));
    boss.set_resource(Resource::Script, def("scr_a", &[], "{\"v\":2}"), data_with(&[]))
        .unwrap();
    let (got, _) = boss.get_resource(Resource::Script, &"scr_a".to_string()).unwrap();
    assert_eq!(got.data, "{\"v\":2}".to_string());
    // a cross-kind set is a name collision
    let r = boss.set_resource(Resource::Sprite, def("scr_a", &[], "{}"), data_with(&[]));
    assert_eq!(r, Err(ResourceManipulationError::NameCollision));
}

#[test]
fn resource_lifecycle_and_flush_removes_directory() {
    // add a sprite, see it, remove it, and watch the flush delete its
    // backing directory
    let mut boss = ready_boss();
    boss.add_resource(Resource::Sprite, def("spr_player", &[], "{}"), data_with(&[]))
        .unwrap();
    assert!(boss.resource_exists(&"spr_player".to_string()));
    let (got, _) = boss.get_resource(Resource::Sprite, &"spr_player".to_string()).unwrap();
    assert_eq!(got.name, "spr_player".to_string());
    boss.remove_resource(Resource::Sprite, &"spr_player".to_string()).unwrap();
    assert!(!boss.resource_exists(&"spr_player".to_string()));
    let (plan, _descriptor) = boss.flush();
    let expected = seg(&["sprites", "spr_player"]);
    let mut saw_removal = false;
    for action in &plan {
        if let FsAction::RemoveDir { path } = action {
            if *path == expected {
                saw_removal = true;
            }
        }
    }
    assert!(saw_removal);
}

#[test]
fn replace_then_flush_deletes_exactly_stale_files() {
    let mut boss = ready_boss();
    boss.add_resource(
        Resource::Sprite,
        def("spr_x", &[], "{}"),
        data_with(&["frame_1.png", "frame_2.png"]),
    )
    .unwrap();
    // settle the add so only the replacement's work is pending
    let _ = boss.flush();
    boss.replace_resource(Resource::Sprite, def("spr_x", &[], "{}"), data_with(&[]))
        .unwrap();
    let (plan, _) = boss.flush();
    let mut removed_files: Vec<Vec<String>> = Vec::new();
    for action in &plan {
        if let FsAction::RemoveFile { path } = action {
            removed_files.push(path.clone());
        }
    }
    assert_eq!(
        removed_files,
        vec![seg(&["sprites", "frame_1.png"]), seg(&["sprites", "frame_2.png"])]
    );
}

#[test]
fn noop_flush_round_trips_descriptor() {
    let descriptor = ProjectDescriptor {
        folders: vec![seg(&["Enemies"]), seg(&["Enemies", "Sub"])],
        resources: vec![
            ProjectEntry {
                name: "obj_slime".to_string(),
                resource: Resource::Object,
                order: 0,
                parent: seg(&["Enemies"]),
            },
            ProjectEntry {
                name: "spr_player".to_string(),
                resource: Resource::Sprite,
                order: 0,
                parent: seg(&[]),
            },
        ],
    };
    let mut boss = YypBoss::new();
    assert!(boss.load_project(&descriptor));
    boss.finish_loading();
    let (plan, out) = boss.flush();
    assert_eq!(plan.len(), 0);
    assert_eq!(out.folders, descriptor.folders);
    assert_eq!(out.resources.len(), descriptor.resources.len());
    for (a, b) in out.resources.iter().zip(descriptor.resources.iter()) {
        assert_eq!(a.name, b.name);
        assert_eq!(a.resource, b.resource);
        assert_eq!(a.order, b.order);
        assert_eq!(a.parent, b.parent);
    }
    // and the written shape loads back into an equal project
    let mut reloaded = YypBoss::new();
    assert!(reloaded.load_project(&out));
    reloaded.finish_loading();
    assert_eq!(reloaded.resource_count(), boss.resource_count());
    assert_eq!(reloaded.get_full_vfs().0, boss.get_full_vfs().0);
}

#[test]
fn cascade_reports_exactly_undefined_resources() {
    // loading a descriptor fills the index but not the stores, so a
    // recursive delete sweeps the leaves and reports the missing definitions
    let descriptor = ProjectDescriptor {
        folders: vec![seg(&["Enemies"])],
        resources: vec![
            ProjectEntry {
                name: "obj_slime".to_string(),
                resource: Resource::Object,
                order: 0,
                parent: seg(&["Enemies"]),
            },
            ProjectEntry {
                name: "obj_bat".to_string(),
                resource: Resource::Object,
                order: 1,
                parent: seg(&["Enemies"]),
            },
        ],
    };
    let mut boss = YypBoss::new();
    assert!(boss.load_project(&descriptor));
    // one of the two definitions is supplied; the other stays missing
    assert!(boss.load_file_definition(
        Resource::Object,
        YyFile {
            name: "obj_slime".to_string(),
            parent: seg(&["Enemies"]),
            data: "{}".to_string(),
        },
    ));
    boss.finish_loading();
    let r = boss.delete_folder(&seg(&["Enemies"]), true);
    assert_eq!(
        r,
        Err(yy_boss::DeleteFolderError::CascadeFailures(vec!["obj_bat".to_string()]))
    );
    // the folder and both resources are gone all the same
    assert!(!boss.resource_exists(&"obj_slime".to_string()));
    assert!(!boss.resource_exists(&"obj_bat".to_string()));
    assert_eq!(boss.get_full_vfs().0.len(), 0);
}

#[test]
fn load_project_rejects_inconsistent_descriptors() {
    let descriptor = ProjectDescriptor {
        folders: vec![seg(&["A"]), seg(&["A"])],
        resources: Vec::new(),
    };
    let mut boss = YypBoss::new();
    assert!(!boss.load_project(&descriptor));
}

#[test]
fn read_data_as_file_validates_json() {
    // a well-formed body passes through
    let ok = SerializedData::Value { data: "{\"name\":\"x\"}".to_string() };
    assert_eq!(ok.read_data_as_file(None), Ok("{\"name\":\"x\"}".to_string()));
    // a malformed body is a data-format error
    let bad = SerializedData::Value { data: "not json".to_string() };
    assert_eq!(
        bad.read_data_as_file(None),
        Err(SerializedDataError::CouldNotParseData)
    );
    // a file reference without a working directory cannot be resolved
    let fp = SerializedData::Filepath { data: "a/b.yy".to_string() };
    assert_eq!(fp.read_data_as_file(None), Err(SerializedDataError::NoFileMode));
    // a resolved file reference is validated like an inline value
    let fp = SerializedData::Filepath { data: "a/b.yy".to_string() };
    assert_eq!(fp.read_data_as_file(Some("[1,2]".to_string())), Ok("[1,2]".to_string()));
    let fp = SerializedData::Filepath { data: "a/b.yy".to_string() };
    assert_eq!(
        fp.read_data_as_file(Some("{broken".to_string())),
        Err(SerializedDataError::CouldNotParseData)
    );
    // a default is the empty object
    assert_eq!(SerializedData::DefaultValue.read_data_as_file(None), Ok("{}".to_string()));
}

#[test]
fn lazily_loaded_payload_is_returned_on_remove() {
    let mut boss = ready_boss();
    boss.add_resource(Resource::Shader, def("sh_blur", &[], "{}"), data_with(&[]))
        .unwrap();
    // install a freshly loaded payload, as the boundary would after a read
    boss.load_resource_associated_data(
        Resource::Shader,
        &"sh_blur".to_string(),
        AssociatedData {
            payload: "glsl".to_string(),
            stale_files: Vec::new(),
            stale_folders: Vec::new(),
        },
    )
    .unwrap();
    let (_, assoc) = boss.remove_resource(Resource::Shader, &"sh_blur".to_string()).unwrap();
    assert_eq!(assoc.unwrap().payload, "glsl".to_string());
    let r = boss.load_resource_associated_data(
        Resource::Shader,
        &"missing".to_string(),
        data_with(&[]),
    );
    assert_eq!(r, Err(ResourceManipulationError::NotFound));
}

#[test]
fn subpath_names_parse_back() {
    let kinds = [
        Resource::Sprite,
        Resource::Script,
        Resource::Object,
        Resource::Note,
        Resource::Shader,
        Resource::AnimationCurve,
        Resource::Extension,
        Resource::Font,
        Resource::Path,
        Resource::Sequence,
        Resource::Sound,
        Resource::TileSet,
        Resource::Timeline,
    ];
    for kind in kinds {
        assert_eq!(Resource::parse_subpath(kind.subpath_name()), Some(kind));
    }
    assert_eq!(Resource::parse_subpath("rooms"), None);
    assert_eq!(Resource::Sprite.subpath_name(), "sprites");
}

#[test]
fn can_manipulate_is_the_command_surface() {
    assert!(Resource::Sprite.can_manipulate());
    assert!(Resource::Script.can_manipulate());
    assert!(Resource::Object.can_manipulate());
    assert!(Resource::Note.can_manipulate());
    assert!(Resource::Shader.can_manipulate());
    assert!(!Resource::Sound.can_manipulate());
    assert!(!Resource::Font.can_manipulate());
    assert!(!Resource::Timeline.can_manipulate());
}
