//! The command surface: envelopes in, structured outputs back.

use yy_boss::input::{
    CommandOutput, Data, NewResource, ResourceCommand, ResourceCommandType, VfsCommand,
};
use yy_boss::{
    AssociatedData, Resource, ResourceManipulationError, SerializedData, YyFile, YypBoss,
};

fn ready_boss() -> YypBoss {
    let mut boss = YypBoss::new();
    boss.finish_loading();
    boss
}

fn seg(parts: &[&str]) -> Vec<String> {
    parts.iter().map(|p| p.to_string()).collect()
}

fn decode(name: &str, parent: &[String], payload: &NewResource) -> Option<(YyFile, AssociatedData)> {
    // the boundary's per-kind codec, reduced to its shape: validate the
    // definition body and bundle the payloads
    let body = match &payload.new_resource {
        Data::Value { data } => {
            SerializedData::Value { data: data.clone() }.read_data_as_file(None).ok()?
        },
        Data::Filepath { data: _ } => return None,
        Data::DefaultValue => SerializedData::DefaultValue.read_data_as_file(None).ok()?,
    };
    let mut assoc = String::new();
    for (_, value) in &payload.associated_data {
        if let Data::Value { data } = value {
            assoc.push_str(data);
        }
    }
    Some((
        YyFile { name: name.to_string(), parent: parent.to_vec(), data: body },
        AssociatedData { payload: assoc, stale_files: Vec::new(), stale_folders: Vec::new() },
    ))
}

fn new_resource(body: &str) -> NewResource {
    NewResource {
        new_resource: Data::Value { data: body.to_string() },
        associated_data: vec![("frames".to_string(), Data::Value { data: "gml".to_string() })],
    }
}

#[test]
fn add_then_exists_then_get_then_remove() {
    let mut boss = ready_boss();
    let payload = new_resource("{\"w\":16}");
    let decoded = decode("spr_player", &seg(&[]), &payload);
    let out = boss.process_resource_command(
        ResourceCommand {
            command_type: ResourceCommandType::Add(payload),
            resource: Resource::Sprite,
        },
        decoded,
    );
    assert!(matches!(out, CommandOutput::Done));
    let out = boss.process_resource_command(
        ResourceCommand {
            command_type: ResourceCommandType::Exists { identifier: "spr_player".to_string() },
            resource: Resource::Sprite,
        },
        None,
    );
    assert!(matches!(out, CommandOutput::Found(true)));
    let out = boss.process_resource_command(
        ResourceCommand {
            command_type: ResourceCommandType::Get { identifier: "spr_player".to_string() },
            resource: Resource::Sprite,
        },
        None,
    );
    match out {
        CommandOutput::Resource(yy, _) => assert_eq!(yy.data, "{\"w\":16}".to_string()),
        _ => panic!("expected the resource back"),
    }
    let out = boss.process_resource_command(
        ResourceCommand {
            command_type: ResourceCommandType::Remove { identifier: "spr_player".to_string() },
            resource: Resource::Sprite,
        },
        None,
    );
    assert!(matches!(out, CommandOutput::Resource(_, _)));
    let out = boss.process_resource_command(
        ResourceCommand {
            command_type: ResourceCommandType::Exists { identifier: "spr_player".to_string() },
            resource: Resource::Sprite,
        },
        None,
    );
    assert!(matches!(out, CommandOutput::Found(false)));
}

#[test]
fn undecodable_definition_is_a_data_format_error() {
    let mut boss = ready_boss();
    let payload = new_resource("{oops");
    let decoded = decode("spr_bad", &seg(&[]), &payload);
    assert!(decoded.is_none());
    let out = boss.process_resource_command(
        ResourceCommand {
            command_type: ResourceCommandType::Add(payload),
            resource: Resource::Sprite,
        },
        decoded,
    );
    assert!(matches!(
        out,
        CommandOutput::Error(ResourceManipulationError::SerializedDataError(_))
    ));
}

#[test]
fn unmanipulable_kind_is_rejected() {
    let mut boss = ready_boss();
    let out = boss.process_resource_command(
        ResourceCommand {
            command_type: ResourceCommandType::Exists { identifier: "snd_boom".to_string() },
            resource: Resource::Sound,
        },
        None,
    );
    assert!(matches!(
        out,
        CommandOutput::Error(ResourceManipulationError::CannotUseResource)
    ));
}

#[test]
fn vfs_commands_round_trip() {
    let mut boss = ready_boss();
    boss.add_folder_to_end(&seg(&[]), "Enemies".to_string()).unwrap();
    boss.add_folder_to_end(&seg(&["Enemies"]), "Sub".to_string()).unwrap();
    // the cycle check answers through the command surface too
    let out = boss.process_vfs_command(VfsCommand::MoveItem {
        start: seg(&["Enemies"]),
        end: seg(&["Enemies", "Sub"]),
    });
    assert!(matches!(out, CommandOutput::VfsError(_)));
    let out = boss.process_vfs_command(VfsCommand::GetFullVfs);
    match out {
        CommandOutput::Folder(folders, files) => {
            assert_eq!(folders.len(), 2);
            assert_eq!(files.len(), 0);
        },
        _ => panic!("expected the full tree"),
    }
    let out = boss.process_vfs_command(VfsCommand::GetFolder(seg(&["Nowhere"])));
    assert!(matches!(out, CommandOutput::VfsError(_)));
    let out = boss.process_vfs_command(VfsCommand::DeleteFolder {
        folder: seg(&["Enemies"]),
        recursive: true,
    });
    assert!(matches!(out, CommandOutput::Done));
    let out = boss.process_vfs_command(VfsCommand::GetFullVfs);
    match out {
        CommandOutput::Folder(folders, _) => assert_eq!(folders.len(), 0),
        _ => panic!("expected the full tree"),
    }
}
