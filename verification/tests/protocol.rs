use gitcore::errors::GitError;
use gitcore::git::object::Object;
use gitcore::git::pack::Pack;
use gitcore::git::protocol::{
    add_to_pkt_line, build_side_band_format, read_pkt_line, read_service_command, Capability,
    Command, PackProtocol, Protocol, RefCommand, RefUpdateRequet, ServeCommand, ServiceType,
    SideBind, PKT_MAX_PAYLOAD,
};
use gitcore::gust::driver::{ObjectStorage, ZERO_ID};
use std::collections::HashMap;
use std::sync::Arc;

#[derive(Clone)]
struct NoStore;

impl ObjectStorage for NoStore {
    fn get_head_object_id(&self, _: &str) -> String {
        ZERO_ID.to_owned()
    }
    fn get_ref_object_id(&self, _: &str) -> HashMap<String, String> {
        HashMap::new()
    }
    fn handle_refs(&self, _: &RefCommand, _: &str) {}
    fn save_packfile(&self, _: Pack, _: &str) -> Result<(), GitError> {
        Ok(())
    }
    fn get_full_pack_data(&self, _: &str) -> Vec<u8> {
        Vec::new()
    }
    fn handle_pull_pack_data(&self) -> Vec<u8> {
        Vec::new()
    }
    fn get_hash_object(&self, h: &gitcore::git::hash::Hash) -> Result<Object, GitError> {
        Err(GitError::MissingBaseObject(*h))
    }
}

#[test]
fn service_names() {
    assert_eq!(ServiceType::UploadPack.to_string(), "git-upload-pack");
    assert_eq!(ServiceType::ReceivePack.to_string(), "git-receive-pack");
    assert_eq!("git-upload-pack".parse::<ServiceType>(), Ok(ServiceType::UploadPack));
    assert_eq!("git-receive-pack".parse::<ServiceType>(), Ok(ServiceType::ReceivePack));
    assert_eq!("git-upload".parse::<ServiceType>(), Err(()));
    assert_eq!(ServiceType::from_name(""), None);
}

#[test]
fn capability_names() {
    for (name, capability) in [
        ("report-status", Capability::ReportStatus),
        ("report-status-v2", Capability::ReportStatusv2),
        ("side-band", Capability::SideBand),
        ("side-band-64k", Capability::SideBand64k),
        ("ofs-delta", Capability::OfsDelta),
        ("multi_ack", Capability::MultiAck),
        ("multi_ack_detailed", Capability::MultiAckDetailed),
        ("deepen-since", Capability::DeepenSince),
        ("deepen-not", Capability::DeepenNot),
    ] {
        assert_eq!(name.parse::<Capability>(), Ok(capability));
    }
    assert_eq!("thin-pack".parse::<Capability>(), Err(()));
}

#[test]
fn side_bands() {
    assert_eq!(SideBind::PackfileData.value(), 1);
    assert_eq!(SideBind::ProgressInfo.value(), 2);
    assert_eq!(SideBind::Error.value(), 3);
}

#[test]
fn the_kind_of_a_command_follows_from_its_ids() {
    let id = "3b18e512dba79e4c8300dd08aeb37f8e728b8dad".to_owned();
    let zero = ZERO_ID.to_owned();
    assert_eq!(zero.len(), 40);
    let create = RefCommand::new(zero.clone(), id.clone(), "refs/heads/main".to_owned());
    assert_eq!(create.command_type, Command::Create);
    let delete = RefCommand::new(id.clone(), zero.clone(), "refs/heads/main".to_owned());
    assert_eq!(delete.command_type, Command::Delete);
    let update = RefCommand::new(id.clone(), id.clone(), "refs/heads/main".to_owned());
    assert_eq!(update.command_type, Command::Update);
    // the old id decides first
    let both = RefCommand::new(zero.clone(), zero, "refs/heads/main".to_owned());
    assert_eq!(both.command_type, Command::Create);
    assert_eq!(update.status, "ok");
    assert_eq!(update.error_msg, "");
    assert_eq!(update.ref_name, "refs/heads/main");
    assert_eq!(update.old_id, id);
}

#[test]
fn status_lines() {
    let id = "3b18e512dba79e4c8300dd08aeb37f8e728b8dad".to_owned();
    let mut command = RefCommand::new(id.clone(), id, "refs/heads/main".to_owned());
    assert_eq!(command.get_status(), "ok refs/heads/main");
    command.failed("non-fast-forward".to_owned());
    assert_eq!(command.status, "ng");
    assert_eq!(command.get_status(), "ng refs/heads/main non-fast-forward");
}

#[test]
fn unpacking_records_the_outcome() {
    let id = "3b18e512dba79e4c8300dd08aeb37f8e728b8dad".to_owned();
    let mut command = RefCommand::new(id.clone(), id, "refs/heads/main".to_owned());
    let mut empty = b"PACK\x00\x00\x00\x02\x00\x00\x00\x00".to_vec();
    let trailer = gitcore::git::hash::Hash::new(&empty);
    empty.extend_from_slice(&trailer.0);
    let pack = command.unpack(&empty, Vec::new()).unwrap();
    assert_eq!(pack.get_object_number(), 0);
    assert_eq!(command.get_status(), "ok refs/heads/main");
    assert_eq!(command.unpack(b"PACK\x00\x00\x00\x07", Vec::new()).err(), Some(GitError::UnsupportedVersion));
    assert_eq!(command.get_status(), "ng refs/heads/main unsupported pack version");
}

#[test]
fn error_messages() {
    assert_eq!(GitError::InvalidPackHeader.message(), "invalid pack header");
    assert_eq!(GitError::CorruptObject.message(), "corrupt object");
    assert_eq!(
        GitError::MissingBaseObject(gitcore::git::hash::Hash([0x1f; 20])).message(),
        format!("missing base object {}", "1f".repeat(20))
    );
}

#[test]
fn a_new_transfer() {
    let state = PackProtocol::new("/repo".to_owned(), "git-upload-pack", Arc::new(NoStore), Protocol::Ssh);
    assert_eq!(state.service_type, Some(ServiceType::UploadPack));
    assert_eq!(state.protocol, Protocol::Ssh);
    assert_eq!(state.path, "/repo");
    assert!(state.capabilities.is_empty());
    assert!(state.command_list.is_empty());
    let idle = PackProtocol::new("/repo".to_owned(), "", Arc::new(NoStore), Protocol::default());
    assert_eq!(idle.service_type, None);
    assert_eq!(idle.protocol, Protocol::Http);
    let request = RefUpdateRequet { comand_list: Vec::new() };
    assert!(request.comand_list.is_empty());
    let serve = ServeCommand::Serve { port: Some(22), key_path: None, cert_path: None };
    assert_eq!(serve, ServeCommand::Serve { port: Some(22), key_path: None, cert_path: None });
}

#[test]
fn packets_carry_their_length_in_four_hex_digits() {
    assert_eq!(add_to_pkt_line(b"hello\n"), Some(b"000ahello\n".to_vec()));
    assert_eq!(add_to_pkt_line(b""), Some(b"0004".to_vec()));
    assert_eq!(add_to_pkt_line(&[b'x'; 0x1000 - 4]).unwrap()[..4], *b"1000");
    let longest = add_to_pkt_line(&vec![0u8; PKT_MAX_PAYLOAD]).unwrap();
    assert_eq!(&longest[..4], b"ffef");
    assert_eq!(longest.len(), 65519);
    assert_eq!(add_to_pkt_line(&vec![0u8; PKT_MAX_PAYLOAD + 1]), None);
}

#[test]
fn side_band_packets_carry_their_band() {
    assert_eq!(
        build_side_band_format(SideBind::PackfileData, b"PACK"),
        Some(b"0009\x01PACK".to_vec())
    );
    assert_eq!(
        build_side_band_format(SideBind::ProgressInfo, b"50%"),
        Some(b"0008\x0250%".to_vec())
    );
    assert_eq!(build_side_band_format(SideBind::Error, b""), Some(b"0005\x03".to_vec()));
    assert!(build_side_band_format(SideBind::Error, &vec![0u8; PKT_MAX_PAYLOAD - 1]).is_some());
    assert_eq!(build_side_band_format(SideBind::Error, &vec![0u8; PKT_MAX_PAYLOAD]), None);
}

#[test]
fn packets_are_read_one_after_the_other() {
    let stream = b"000ahello\n0000000BWORLD\n\x000004rest";
    assert_eq!(read_pkt_line(stream, 0), Ok((4, 10)));
    assert_eq!(&stream[4..10], b"hello\n");
    // the packet that ends a section has no payload
    assert_eq!(read_pkt_line(stream, 10), Ok((14, 14)));
    // digits of either case
    assert_eq!(read_pkt_line(stream, 14), Ok((18, 25)));
    assert_eq!(read_pkt_line(stream, 25), Ok((29, 29)));
    assert_eq!(read_pkt_line(stream, 29), Err(GitError::MalformedHeader));
    assert_eq!(read_pkt_line(b"000", 0), Err(GitError::UnexpectedEof));
    assert_eq!(read_pkt_line(b"0003", 0), Err(GitError::MalformedHeader));
    assert_eq!(read_pkt_line(b"0009abc", 0), Err(GitError::UnexpectedEof));
    assert_eq!(read_pkt_line(b"000g", 0), Err(GitError::MalformedHeader));
    // what was written is read back
    let written = add_to_pkt_line(b"some payload").unwrap();
    let (start, end) = read_pkt_line(&written, 0).unwrap();
    assert_eq!(&written[start..end], b"some payload");
}

#[test]
fn the_command_that_opens_a_transfer() {
    assert_eq!(
        read_service_command(b"git-upload-pack '/root/repotest/src.git'"),
        Some((ServiceType::UploadPack, "root/repotest/src".to_owned()))
    );
    assert_eq!(
        read_service_command(b"git-receive-pack '/a.git'"),
        Some((ServiceType::ReceivePack, "a".to_owned()))
    );
    assert_eq!(
        read_service_command(b"git-receive-pack '/.git'"),
        Some((ServiceType::ReceivePack, "".to_owned()))
    );
    assert_eq!(read_service_command(b"git-receive-pack '.git'"), None);
    assert_eq!(read_service_command(b"git-receive-pack"), None);
    assert_eq!(read_service_command(b"git-send-pack '/a.git'"), None);
    assert_eq!(read_service_command(b""), None);
}

#[test]
fn the_commands_of_a_push() {
    let old = "1".repeat(40);
    let new = "2".repeat(40);
    let line = format!("{} {} refs/heads/main\0report-status side-band-64k", old, new);
    let command = RefCommand::from_line(line.as_bytes()).unwrap();
    assert_eq!(command.old_id, old);
    assert_eq!(command.new_id, new);
    assert_eq!(command.ref_name, "refs/heads/main");
    assert_eq!(command.command_type, Command::Update);
    assert_eq!(command.status, "ok");
    let line = format!("{} {} refs/tags/v1\n", ZERO_ID, new);
    let command = RefCommand::from_line(line.as_bytes()).unwrap();
    assert_eq!(command.ref_name, "refs/tags/v1");
    assert_eq!(command.command_type, Command::Create);
    let line = format!("{} {} refs/heads/old", old, ZERO_ID);
    let command = RefCommand::from_line(line.as_bytes()).unwrap();
    assert_eq!(command.ref_name, "refs/heads/old");
    assert_eq!(command.command_type, Command::Delete);
    let line = format!("{} {} a\nb\0c", old, new);
    assert_eq!(RefCommand::from_line(line.as_bytes()).unwrap().ref_name, "a");
    assert_eq!(RefCommand::from_line(format!("{} {} ", old, new).as_bytes()).unwrap().ref_name, "");
    assert!(RefCommand::from_line(format!("{} {}", old, new).as_bytes()).is_none());
    assert!(RefCommand::from_line(format!("{}_{} x", old, new).as_bytes()).is_none());
    assert!(RefCommand::from_line(b"").is_none());
}
