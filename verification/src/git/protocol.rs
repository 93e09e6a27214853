//! The vocabulary of the transfer protocol: services, capabilities, side
//! bands and the commands that move references.

use vstd::prelude::*;
use vstd::string::StringExecFns;
use std::sync::Arc;
use crate::errors::{ErrorView, GitError};
use crate::git::hash::{code_value, hex_code_value};
use crate::git::object::{object_views, Object};
use crate::git::pack::{decode_spec, Pack, PackView};
use crate::gust::driver::{is_zero_id, ObjectStorage, ZERO_ID};
use crate::utils::{find_byte, first_at_or_after, text_of, utf8_lossy};

verus! {

/// The separator between the fields of a status line.
pub const SP: char = ' ';

/// The state of one transfer: what is served, from where, with which store.
#[derive(Debug, Clone)]
pub struct PackProtocol<T: ObjectStorage> {
    pub protocol: Protocol,
    pub capabilities: Vec<Capability>,
    pub path: String,
    pub service_type: Option<ServiceType>,
    pub storage: Arc<T>,
    pub command_list: Vec<RefCommand>,
}

/// The transport that carries a transfer.
#[derive(Debug, PartialEq, Eq, Structural, Clone, Copy)]
pub enum Protocol {
    Local,
    Http,
    Ssh,
    Git,
}

impl Default for Protocol {
    fn default() -> (p: Protocol)
        ensures
            p == Protocol::Http,
    {
        Protocol::Http
    }
}

/// The two services of the protocol.
#[derive(Debug, PartialEq, Eq, Structural, Clone, Copy)]
pub enum ServiceType {
    UploadPack,
    ReceivePack,
}

/// The name of a service on the wire.
pub open spec fn service_name(service: ServiceType) -> Seq<char> {
    match service {
        ServiceType::UploadPack => "git-upload-pack"@,
        ServiceType::ReceivePack => "git-receive-pack"@,
    }
}

/// The service that a name stands for, if it stands for one.
pub open spec fn service_of(name: Seq<char>) -> Option<ServiceType> {
    if name == "git-upload-pack"@ {
        Some(ServiceType::UploadPack)
    } else if name == "git-receive-pack"@ {
        Some(ServiceType::ReceivePack)
    } else {
        None
    }
}

/// Whether two texts are the same.
fn same_text(a: &str, b: &str) -> (same: bool)
    ensures
        same == (a@ == b@),
{
    let x = a.to_owned();
    let y = b.to_owned();
    x == y
}

impl ServiceType {
    /// The name of the service on the wire.
    pub fn to_string(&self) -> (name: String)
        ensures
            name@ == service_name(*self),
    {
        match self {
            ServiceType::UploadPack => "git-upload-pack".to_owned(),
            ServiceType::ReceivePack => "git-receive-pack".to_owned(),
        }
    }

    /// The service that `name` stands for.
    pub fn from_name(name: &str) -> (service: Option<ServiceType>)
        ensures
            service == service_of(name@),
    {
        if same_text(name, "git-upload-pack") {
            Some(ServiceType::UploadPack)
        } else if same_text(name, "git-receive-pack") {
            Some(ServiceType::ReceivePack)
        } else {
            None
        }
    }
}

impl std::str::FromStr for ServiceType {
    type Err = ();

    fn from_str(s: &str) -> (r: Result<ServiceType, ()>)
        ensures
            r is Ok <==> service_of(s@) is Some,
            r matches Ok(service) ==> service_of(s@) == Some(service),
    {
        match ServiceType::from_name(s) {
            Some(service) => Ok(service),
            None => Err(()),
        }
    }
}

/// What the two ends of a transfer may agree on.
#[derive(Debug, Clone, Copy, PartialEq, Eq, Structural)]
pub enum Capability {
    MultiAck,
    MultiAckDetailed,
    SideBand,
    SideBand64k,
    ReportStatus,
    ReportStatusv2,
    OfsDelta,
    DeepenSince,
    DeepenNot,
}

/// The capability that a name stands for, if it stands for one.
pub open spec fn capability_of(name: Seq<char>) -> Option<Capability> {
    if name == "report-status"@ {
        Some(Capability::ReportStatus)
    } else if name == "report-status-v2"@ {
        Some(Capability::ReportStatusv2)
    } else if name == "side-band"@ {
        Some(Capability::SideBand)
    } else if name == "side-band-64k"@ {
        Some(Capability::SideBand64k)
    } else if name == "ofs-delta"@ {
        Some(Capability::OfsDelta)
    } else if name == "multi_ack"@ {
        Some(Capability::MultiAck)
    } else if name == "multi_ack_detailed"@ {
        Some(Capability::MultiAckDetailed)
    } else if name == "deepen-since"@ {
        Some(Capability::DeepenSince)
    } else if name == "deepen-not"@ {
        Some(Capability::DeepenNot)
    } else {
        None
    }
}

impl Capability {
    /// The capability that `name` stands for.
    pub fn from_name(name: &str) -> (capability: Option<Capability>)
        ensures
            capability == capability_of(name@),
    {
        if same_text(name, "report-status") {
            Some(Capability::ReportStatus)
        } else if same_text(name, "report-status-v2") {
            Some(Capability::ReportStatusv2)
        } else if same_text(name, "side-band") {
            Some(Capability::SideBand)
        } else if same_text(name, "side-band-64k") {
            Some(Capability::SideBand64k)
        } else if same_text(name, "ofs-delta") {
            Some(Capability::OfsDelta)
        } else if same_text(name, "multi_ack") {
            Some(Capability::MultiAck)
        } else if same_text(name, "multi_ack_detailed") {
            Some(Capability::MultiAckDetailed)
        } else if same_text(name, "deepen-since") {
            Some(Capability::DeepenSince)
        } else if same_text(name, "deepen-not") {
            Some(Capability::DeepenNot)
        } else {
            None
        }
    }
}

impl std::str::FromStr for Capability {
    type Err = ();

    fn from_str(s: &str) -> (r: Result<Capability, ()>)
        ensures
            r is Ok <==> capability_of(s@) is Some,
            r matches Ok(capability) ==> capability_of(s@) == Some(capability),
    {
        match Capability::from_name(s) {
            Some(capability) => Ok(capability),
            None => Err(()),
        }
    }
}

/// The three bands that share one connection.
#[derive(Debug, Clone, Copy, PartialEq, Eq, Structural)]
pub enum SideBind {
    /// Band 1 carries the bytes of the pack.
    PackfileData,
    /// Band 2 carries progress messages.
    ProgressInfo,
    /// Band 3 carries error messages.
    Error,
}

impl SideBind {
    /// The byte that marks a packet of this band.
    pub fn value(&self) -> (band: u8)
        ensures
            band == match *self {
                SideBind::PackfileData => 1u8,
                SideBind::ProgressInfo => 2u8,
                SideBind::Error => 3u8,
            },
    {
        match self {
            SideBind::PackfileData => 1,
            SideBind::ProgressInfo => 2,
            SideBind::Error => 3,
        }
    }
}

/// The reference commands of one push.
pub struct RefUpdateRequet {
    pub comand_list: Vec<RefCommand>,
}

/// What a reference command does to its reference.
#[derive(Debug, Clone, Copy, PartialEq, Eq, Structural)]
pub enum Command {
    Create,
    Delete,
    Update,
}

/// One command of a push: move `ref_name` from `old_id` to `new_id`. The
/// status says how it went.
#[derive(Debug, Clone)]
pub struct RefCommand {
    pub ref_name: String,
    pub old_id: String,
    pub new_id: String,
    pub status: String,
    pub error_msg: String,
    pub command_type: Command,
}

/// The status of a command that went well.
pub const OK_STATUS: &'static str = "ok";

/// The status of a command that failed.
pub const FAILED_STATUS: &'static str = "ng";

/// What a command does, by its two ids: it creates the reference where the
/// old id is all zeros, deletes it where the new id is, and updates it
/// otherwise.
pub open spec fn command_kind(old_id: Seq<char>, new_id: Seq<char>) -> Command {
    if is_zero_id(old_id) {
        Command::Create
    } else if is_zero_id(new_id) {
        Command::Delete
    } else {
        Command::Update
    }
}

/// The status line of a command: the status and the reference, and for a
/// failed command the error message, separated by single spaces.
pub open spec fn status_line(status: Seq<char>, ref_name: Seq<char>, error_msg: Seq<char>) -> Seq<
    char,
> {
    if status == OK_STATUS@ {
        status + seq![SP] + ref_name
    } else {
        status + seq![SP] + ref_name + seq![SP] + error_msg
    }
}

impl RefCommand {
    /// A command that has not failed.
    pub fn new(old_id: String, new_id: String, ref_name: String) -> (command: RefCommand)
        ensures
            command.ref_name@ == ref_name@,
            command.old_id@ == old_id@,
            command.new_id@ == new_id@,
            command.status@ == OK_STATUS@,
            command.error_msg@ == Seq::<char>::empty(),
            command.command_type == command_kind(old_id@, new_id@),
    {
        let command_type = if same_text(ZERO_ID, old_id.as_str()) {
            Command::Create
        } else if same_text(ZERO_ID, new_id.as_str()) {
            Command::Delete
        } else {
            Command::Update
        };
        RefCommand {
            ref_name,
            old_id,
            new_id,
            status: OK_STATUS.to_owned(),
            error_msg: String::new(),
            command_type,
        }
    }

    /// Decodes the pack that came with the command and records in the status
    /// whether that went well; the error message of a failure is kept.
    pub fn unpack(&mut self, data: &[u8], outside: Vec<Object>) -> (r: Result<Pack, GitError>)
        ensures
            match r {
                Ok(pack) => decode_spec(data@, object_views(outside@)) == Ok::<_, ErrorView>(pack@)
                    && final(self).status@ == OK_STATUS@ && final(self).error_msg@ == old(
                    self,
                ).error_msg@,
                Err(e) => decode_spec(data@, object_views(outside@)) == Err::<PackView, _>(e@)
                    && final(self).status@ == FAILED_STATUS@ && final(self).error_msg@
                    == crate::errors::error_text(e@),
            },
            final(self).ref_name@ == old(self).ref_name@,
            final(self).old_id@ == old(self).old_id@,
            final(self).new_id@ == old(self).new_id@,
            final(self).command_type == old(self).command_type,
    {
        match Pack::decode(data, outside) {
            Ok(pack) => {
                self.status = OK_STATUS.to_owned();
                Ok(pack)
            },
            Err(e) => {
                self.status = FAILED_STATUS.to_owned();
                self.error_msg = e.message();
                Err(e)
            },
        }
    }

    /// The status line that reports the command to the other end.
    pub fn get_status(&self) -> (line: String)
        ensures
            line@ == status_line(self.status@, self.ref_name@, self.error_msg@),
    {
        let mut line = self.status.clone();
        line.append(" ");
        line.append(self.ref_name.as_str());
        proof {
            reveal_strlit(" ");
            assert(" "@ =~= seq![SP]);
        }
        if !same_text(OK_STATUS, self.status.as_str()) {
            line.append(" ");
            line.append(self.error_msg.as_str());
        }
        line
    }

    /// Marks the command as failed, with the reason.
    pub fn failed(&mut self, msg: String)
        ensures
            final(self).status@ == FAILED_STATUS@,
            final(self).error_msg@ == msg@,
            final(self).ref_name@ == old(self).ref_name@,
            final(self).old_id@ == old(self).old_id@,
            final(self).new_id@ == old(self).new_id@,
            final(self).command_type == old(self).command_type,
    {
        self.status = FAILED_STATUS.to_owned();
        self.error_msg = msg;
    }
}

impl<T: ObjectStorage> PackProtocol<T> {
    /// The state of a transfer that has not begun. An empty service name
    /// stands for "no service yet"; any other must name a service.
    pub fn new(path: String, service_name: &str, storage: Arc<T>, protocol: Protocol) -> (state:
        PackProtocol<T>)
        requires
            service_name@.len() == 0 || service_of(service_name@) is Some,
        ensures
            state.protocol == protocol,
            state.capabilities@.len() == 0,
            state.path@ == path@,
            state.service_type == service_of(service_name@),
            state.storage == storage,
            state.command_list@.len() == 0,
    {
        let service_type = if service_name.is_empty() {
            proof {
                reveal_strlit("git-upload-pack");
                reveal_strlit("git-receive-pack");
            }
            None
        } else {
            ServiceType::from_name(service_name)
        };
        PackProtocol {
            protocol,
            capabilities: Vec::new(),
            service_type,
            path,
            storage,
            command_list: Vec::new(),
        }
    }
}

/// What the server is asked to do on the command line.
#[derive(Debug, Clone, PartialEq, Eq)]
pub enum ServeCommand {
    /// Serve repositories.
    Serve {
        /// The port to listen on.
        port: Option<u16>,
        /// The file that holds the server's key.
        key_path: Option<String>,
        /// The file that holds the server's certificate.
        cert_path: Option<String>,
    },
}

/// The longest payload of a packet: the length of a packet, its own four
/// digits included, stays below 65520.
pub const PKT_MAX_PAYLOAD: usize = 65515;

/// The ASCII code of the lowercase hexadecimal digit for a value below 16.
pub open spec fn hex_code(nibble: int) -> u8 {
    if nibble < 10 {
        (48 + nibble) as u8
    } else {
        (87 + nibble) as u8
    }
}

/// The length of a packet as it is written: four lowercase hexadecimal
/// digits, most significant first.
pub open spec fn length_digits(len: int) -> Seq<u8> {
    seq![
        hex_code(len / 4096 % 16),
        hex_code(len / 256 % 16),
        hex_code(len / 16 % 16),
        hex_code(len % 16),
    ]
}

/// A packet: its length, its own four digits included, and its payload.
pub open spec fn packet(payload: Seq<u8>) -> Seq<u8> {
    length_digits(payload.len() as int + 4) + payload
}

/// A packet of a side band: the byte of the band goes before the payload.
pub open spec fn side_band_packet(band: u8, payload: Seq<u8>) -> Seq<u8> {
    packet(seq![band] + payload)
}

/// What reading a packet at `pos` yields: where its payload starts and ends;
/// for the packet that ends a section, the payload is empty and starts where
/// it ends. A length that is no four hexadecimal digits, or that is 1, 2 or
/// 3, is malformed.
pub open spec fn packet_at(data: Seq<u8>, pos: int) -> Result<(int, int), ErrorView> {
    if pos < 0 || pos + 4 > data.len() {
        Err(ErrorView::UnexpectedEof)
    } else if hex_code_value(data[pos]) < 0 || hex_code_value(data[pos + 1]) < 0 || hex_code_value(
        data[pos + 2],
    ) < 0 || hex_code_value(data[pos + 3]) < 0 {
        Err(ErrorView::MalformedHeader)
    } else {
        let len = hex_code_value(data[pos]) * 4096 + hex_code_value(data[pos + 1]) * 256
            + hex_code_value(data[pos + 2]) * 16 + hex_code_value(data[pos + 3]);
        if len == 0 {
            Ok((pos + 4, pos + 4))
        } else if len < 4 {
            Err(ErrorView::MalformedHeader)
        } else if pos + len > data.len() {
            Err(ErrorView::UnexpectedEof)
        } else {
            Ok((pos + 4, pos + len))
        }
    }
}

/// The four hexadecimal digits of a number below 65536 spell the number.
proof fn lemma_four_digits(len: int)
    requires
        0 <= len < 65536,
    ensures
        (len / 4096 % 16) * 4096 + (len / 256 % 16) * 256 + (len / 16 % 16) * 16 + len % 16 == len,
        0 <= len / 4096 % 16 < 16,
        0 <= len / 256 % 16 < 16,
        0 <= len / 16 % 16 < 16,
        0 <= len % 16 < 16,
{
    assert(len == (len / 16) * 16 + len % 16);
    assert(len / 16 == (len / 256) * 16 + len / 16 % 16);
    assert(len / 256 == (len / 4096) * 16 + len / 256 % 16);
    assert(len / 4096 < 16);
}

/// The digit that is written for a value below 16 reads back as that value.
proof fn lemma_digit_reads_back(nibble: int)
    requires
        0 <= nibble < 16,
    ensures
        hex_code_value(hex_code(nibble)) == nibble,
{
}

/// A packet that was written reads back as its payload.
pub proof fn lemma_packet_reads_back(payload: Seq<u8>, after: Seq<u8>)
    requires
        payload.len() <= PKT_MAX_PAYLOAD,
    ensures
        packet_at(packet(payload) + after, 0) == Ok::<_, ErrorView>(
            (4int, payload.len() as int + 4),
        ),
        (packet(payload) + after).subrange(4, payload.len() as int + 4) == payload,
{
    let len = payload.len() as int + 4;
    let data = packet(payload) + after;
    let d0 = len / 4096 % 16;
    let d1 = len / 256 % 16;
    let d2 = len / 16 % 16;
    let d3 = len % 16;
    lemma_four_digits(len);
    lemma_digit_reads_back(d0);
    lemma_digit_reads_back(d1);
    lemma_digit_reads_back(d2);
    lemma_digit_reads_back(d3);
    assert(data[0] == hex_code(d0));
    assert(data[1] == hex_code(d1));
    assert(data[2] == hex_code(d2));
    assert(data[3] == hex_code(d3));
    assert(data.len() >= len);
    assert(data.subrange(4, len) =~= payload);
}

/// The ASCII code of the lowercase hexadecimal digit for `nibble`.
fn code_of(nibble: usize) -> (code: u8)
    requires
        nibble < 16,
    ensures
        code == hex_code(nibble as int),
{
    if nibble < 10 {
        48 + nibble as u8
    } else {
        87 + nibble as u8
    }
}

/// Appends a packet with the given payload to `out`, behind the byte of a
/// side band where one is given.
fn push_packet(out: &mut Vec<u8>, band: Option<u8>, payload: &[u8])
    requires
        payload@.len() + (if band is Some {
            1int
        } else {
            0int
        }) <= PKT_MAX_PAYLOAD,
    ensures
        final(out)@ == old(out)@ + match band {
            Some(b) => side_band_packet(b, payload@),
            None => packet(payload@),
        },
{
    let len = payload.len() + 4 + if band.is_some() {
        1usize
    } else {
        0usize
    };
    out.push(code_of(len / 4096 % 16));
    out.push(code_of(len / 256 % 16));
    out.push(code_of(len / 16 % 16));
    out.push(code_of(len % 16));
    match band {
        Some(b) => {
            out.push(b);
        },
        None => {},
    }
    out.extend_from_slice(payload);
    proof {
        match band {
            Some(b) => {
                assert(final(out)@ =~= old(out)@ + side_band_packet(b, payload@));
            },
            None => {
                assert(final(out)@ =~= old(out)@ + packet(payload@));
            },
        }
    }
}

/// The packet with the given payload, or `None` where the payload is too long
/// for one packet.
pub fn add_to_pkt_line(payload: &[u8]) -> (r: Option<Vec<u8>>)
    ensures
        r is Some <==> payload@.len() <= PKT_MAX_PAYLOAD,
        r matches Some(bytes) ==> bytes@ == packet(payload@),
{
    if payload.len() > PKT_MAX_PAYLOAD {
        return None;
    }
    let mut out: Vec<u8> = Vec::new();
    push_packet(&mut out, None, payload);
    proof {
        assert(Seq::<u8>::empty() + packet(payload@) =~= packet(payload@));
    }
    Some(out)
}

/// The packet that carries `payload` on the given side band, or `None` where
/// the payload is too long for one packet.
pub fn build_side_band_format(band: SideBind, payload: &[u8]) -> (r: Option<Vec<u8>>)
    ensures
        r is Some <==> payload@.len() + 1 <= PKT_MAX_PAYLOAD,
        r matches Some(bytes) ==> bytes@ == side_band_packet(
            match band {
                SideBind::PackfileData => 1u8,
                SideBind::ProgressInfo => 2u8,
                SideBind::Error => 3u8,
            },
            payload@,
        ),
{
    if payload.len() >= PKT_MAX_PAYLOAD {
        return None;
    }
    let mut out: Vec<u8> = Vec::new();
    let mark = band.value();
    push_packet(&mut out, Some(mark), payload);
    proof {
        assert(Seq::<u8>::empty() + side_band_packet(mark, payload@) =~= side_band_packet(
            mark,
            payload@,
        ));
    }
    Some(out)
}

/// Reads the packet at `pos` and returns where its payload starts and ends;
/// the next packet starts where the payload ends.
pub fn read_pkt_line(data: &[u8], pos: usize) -> (r: Result<(usize, usize), GitError>)
    ensures
        match r {
            Ok((start, end)) => packet_at(data@, pos as int) == Ok::<_, ErrorView>(
                (start as int, end as int),
            ) && pos < start <= end <= data@.len(),
            Err(e) => packet_at(data@, pos as int) == Err::<(int, int), _>(e@),
        },
{
    if data.len() < 4 || pos > data.len() - 4 {
        return Err(GitError::UnexpectedEof);
    }
    let digits = (
        code_value(data[pos]),
        code_value(data[pos + 1]),
        code_value(data[pos + 2]),
        code_value(data[pos + 3]),
    );
    let len = match digits {
        (Some(a), Some(b), Some(c), Some(d)) => (a as usize) * 4096 + (b as usize) * 256 + (
        c as usize) * 16 + d as usize,
        _ => {
            return Err(GitError::MalformedHeader);
        },
    };
    if len == 0 {
        return Ok((pos + 4, pos + 4));
    }
    if len < 4 {
        return Err(GitError::MalformedHeader);
    }
    if len > data.len() - pos {
        return Err(GitError::UnexpectedEof);
    }
    Ok((pos + 4, pos + len))
}

/// Where the name of the reference ends in a command line: at the first NUL
/// or line feed behind position 82, or at the end of the line.
pub open spec fn ref_name_end(line: Seq<u8>) -> int {
    match first_at_or_after(line, 82, 0u8) {
        Some(nul) => match first_at_or_after(line.subrange(0, nul), 82, 0x0au8) {
            Some(feed) => feed,
            None => nul,
        },
        None => match first_at_or_after(line, 82, 0x0au8) {
            Some(feed) => feed,
            None => line.len() as int,
        },
    }
}

/// Whether a line is laid out as a command of a push: forty bytes of the old
/// id, a space, forty bytes of the new id, a space, and the name of the
/// reference.
pub open spec fn is_command_line(line: Seq<u8>) -> bool {
    line.len() >= 82 && line[40] == 0x20 && line[81] == 0x20
}

impl RefCommand {
    /// Reads a command of a push from the payload of a packet. What follows
    /// a NUL or a line feed behind the name of the reference is not part of
    /// the command.
    pub fn from_line(line: &[u8]) -> (r: Option<RefCommand>)
        ensures
            r is Some <==> is_command_line(line@),
            r matches Some(command) ==> command.old_id@ == utf8_lossy(line@.subrange(0, 40))
                && command.new_id@ == utf8_lossy(line@.subrange(41, 81)) && command.ref_name@
                == utf8_lossy(line@.subrange(82, ref_name_end(line@))) && command.status@
                == OK_STATUS@ && command.error_msg@ == Seq::<char>::empty()
                && command.command_type == command_kind(command.old_id@, command.new_id@),
    {
        if line.len() < 82 || line[40] != 0x20 || line[81] != 0x20 {
            return None;
        }
        let end = match find_byte(line, 82, 0) {
            Some(nul) => {
                let head = vstd::slice::slice_subrange(line, 0, nul);
                match find_byte(head, 82, 0x0a) {
                    Some(feed) => feed,
                    None => nul,
                }
            },
            None => match find_byte(line, 82, 0x0a) {
                Some(feed) => feed,
                None => line.len(),
            },
        };
        Some(RefCommand::new(text_of(line, 0, 40), text_of(line, 41, 81), text_of(line, 82, end)))
    }
}

/// Where the path of the repository starts and ends in a command such as
/// `git-upload-pack '/root/repo.git'`: behind the space, the quote and the
/// slash that follow the name of the service, and before the five bytes that
/// end the command.
pub open spec fn command_path(command: Seq<u8>) -> Option<(int, int)> {
    match first_at_or_after(command, 0, 0x20u8) {
        Some(space) => if space + 3 <= command.len() - 5 {
            Some((space + 3, command.len() - 5))
        } else {
            None
        },
        None => None,
    }
}

/// Reads the command that opens a transfer: the name of the service, a
/// space, and the path of the repository in quotes. Returns the service and
/// the path without its first slash and without the ending `.git`.
pub fn read_service_command(command: &[u8]) -> (r: Option<(ServiceType, String)>)
    ensures
        match r {
            Some((service, path)) => command_path(command@) matches Some((from, to))
                && first_at_or_after(command@, 0, 0x20u8) matches Some(space) && service_of(
                utf8_lossy(command@.subrange(0, space)),
            ) == Some(service) && path@ == utf8_lossy(command@.subrange(from, to)),
            None => command_path(command@) is None || service_of(
                utf8_lossy(
                    command@.subrange(0, first_at_or_after(command@, 0, 0x20u8)->Some_0),
                ),
            ) is None,
        },
{
    let space = match find_byte(command, 0, 0x20) {
        Some(space) => space,
        None => {
            return None;
        },
    };
    let len = command.len();
    if len < 8 || space > len - 8 {
        return None;
    }
    let name = text_of(command, 0, space);
    match ServiceType::from_name(name.as_str()) {
        None => None,
        Some(service) => Some((service, text_of(command, space + 3, len - 5))),
    }
}

} // verus!
