//! The records that the in-kernel probe emits about process lifecycle events,
//! and where the probe program is looked for.
use crate::text::join_path;
use crate::text::joined;
use vstd::array::array_as_slice;
use vstd::prelude::*;
use vstd::slice::slice_subrange;
use vstd::string::*;

verus! {

/// The length of the task-command field of a record.
pub const TASK_COMM_LENGTH: usize = 16;

/// The length of a record in the ring buffer: six 32-bit fields and the
/// task-command field.
pub const RECORD_LENGTH: usize = 40;

/// What a process did.
#[derive(Debug, Clone, Copy, PartialEq, Eq, Structural)]
pub enum EventType {
    Fork,
    Exec,
    Exit,
    Clone,
    Unshare,
    Setns,
}

impl EventType {
    /// The number that stands for the kind in a record.
    pub open spec fn spec_code(self) -> u32 {
        match self {
            EventType::Fork => 0,
            EventType::Exec => 1,
            EventType::Exit => 2,
            EventType::Clone => 3,
            EventType::Unshare => 4,
            EventType::Setns => 5,
        }
    }

    /// The kind that `code` stands for in a record.
    pub open spec fn spec_from_code(code: u32) -> Option<EventType> {
        if code == 0 {
            Some(EventType::Fork)
        } else if code == 1 {
            Some(EventType::Exec)
        } else if code == 2 {
            Some(EventType::Exit)
        } else if code == 3 {
            Some(EventType::Clone)
        } else if code == 4 {
            Some(EventType::Unshare)
        } else if code == 5 {
            Some(EventType::Setns)
        } else {
            None
        }
    }

    /// The number that stands for the kind in a record.
    pub fn code(self) -> (r: u32)
        ensures
            r == self.spec_code(),
            EventType::spec_from_code(r) == Some(self),
    {
        match self {
            EventType::Fork => 0,
            EventType::Exec => 1,
            EventType::Exit => 2,
            EventType::Clone => 3,
            EventType::Unshare => 4,
            EventType::Setns => 5,
        }
    }

    /// The kind that `code` stands for in a record, if it stands for one.
    pub fn from_code(code: u32) -> (r: Option<EventType>)
        ensures
            r == EventType::spec_from_code(code),
            r is Some <==> code <= 5,
            r is Some ==> r->0.spec_code() == code,
    {
        if code == 0 {
            Some(EventType::Fork)
        } else if code == 1 {
            Some(EventType::Exec)
        } else if code == 2 {
            Some(EventType::Exit)
        } else if code == 3 {
            Some(EventType::Clone)
        } else if code == 4 {
            Some(EventType::Unshare)
        } else if code == 5 {
            Some(EventType::Setns)
        } else {
            None
        }
    }
}

/// One record of the probe.
#[derive(Debug, Clone, Copy, PartialEq, Eq)]
pub struct EbpfEvent {
    pub kind: EventType,
    pub pid: u32,
    pub tid: u32,
    pub uid: u32,
    pub gid: u32,
    pub parent_pid: u32,
    /// The task command, padded with NUL bytes.
    pub command: [u8; TASK_COMM_LENGTH],
}

/// The text that a lossy UTF-8 decoding of `bytes` gives: the text that the
/// bytes encode where they are valid UTF-8, and else that text with a
/// replacement character in the place of each invalid sequence.
pub uninterp spec fn utf8_lossy(bytes: Seq<u8>) -> Seq<char>;

/// Decodes `bytes` as UTF-8, replacing what is invalid.
///
/// Calls `String::from_utf8_lossy`. Taken on trust from its documentation:
/// the result depends on the bytes alone, and valid UTF-8 comes back as the
/// text that it encodes.
#[verifier::external_body]
fn lossy_string(bytes: &[u8]) -> (r: String)
    ensures
        r@ == utf8_lossy(bytes@),
        vstd::utf8::valid_utf8(bytes@) ==> r@ == vstd::utf8::decode_utf8(bytes@),
{
    String::from_utf8_lossy(bytes).into_owned()
}

/// The number of bytes of `command` before its first NUL byte.
pub open spec fn command_length(command: Seq<u8>) -> int
    decreases command.len(),
{
    if command.len() == 0 || command[0] == 0 {
        0
    } else {
        1 + command_length(command.drop_first())
    }
}

/// The command length is the position of the first NUL byte, or the length
/// of the field if it holds none.
pub proof fn lemma_command_length(command: Seq<u8>)
    ensures
        0 <= command_length(command) <= command.len(),
        forall|i: int| 0 <= i < command_length(command) ==> command[i] != 0,
        command_length(command) < command.len() ==> command[command_length(command)] == 0,
    decreases command.len(),
{
    if command.len() > 0 && command[0] != 0 {
        let rest = command.drop_first();
        lemma_command_length(rest);
        assert forall|i: int| 0 <= i < command_length(command) implies command[i] != 0 by {
            if i > 0 {
                assert(rest[i - 1] == command[i]);
            }
        }
        if command_length(command) < command.len() {
            assert(rest[command_length(rest)] == command[command_length(command)]);
        }
    }
}

/// A position before which no byte is NUL, and which holds a NUL byte or is
/// the end, is the command length.
proof fn lemma_command_length_is(command: Seq<u8>, n: int)
    requires
        0 <= n <= command.len(),
        forall|i: int| 0 <= i < n ==> command[i] != 0,
        n < command.len() ==> command[n] == 0,
    ensures
        command_length(command) == n,
{
    lemma_command_length(command);
    let m = command_length(command);
    if m < n {
        assert(command[m] == 0);
    }
    if n < m {
        assert(command[n] != 0);
    }
}

impl EbpfEvent {
    /// The bytes of the task command before its padding.
    pub open spec fn command_bytes(self) -> Seq<u8> {
        self.command@.take(command_length(self.command@))
    }

    /// The task command as text: the bytes before the first NUL byte, decoded
    /// as UTF-8 with a replacement character for what is invalid.
    pub fn command_as_string(&self) -> (r: String)
        ensures
            r@ == utf8_lossy(self.command_bytes()),
            vstd::utf8::valid_utf8(self.command_bytes()) ==> r@ == vstd::utf8::decode_utf8(
                self.command_bytes(),
            ),
    {
        let mut len: usize = 0;
        while len < TASK_COMM_LENGTH && self.command[len] != 0
            invariant
                len <= TASK_COMM_LENGTH,
                forall|i: int| 0 <= i < len ==> self.command@[i] != 0,
            decreases TASK_COMM_LENGTH - len,
        {
            len += 1;
        }
        proof {
            lemma_command_length_is(self.command@, len as int);
        }
        let bytes = slice_subrange(array_as_slice(&self.command), 0, len);
        assert(bytes@ =~= self.command_bytes());
        lossy_string(bytes)
    }
}

/// The 32-bit number that the four bytes of `bytes` from `at` on hold, in
/// the byte order of a machine that is big-endian or not.
pub open spec fn word_at(bytes: Seq<u8>, at: int, big_endian: bool) -> int {
    if big_endian {
        bytes[at] * 0x100_0000 + bytes[at + 1] * 0x1_0000 + bytes[at + 2] * 0x100 + bytes[at + 3]
    } else {
        bytes[at] + bytes[at + 1] * 0x100 + bytes[at + 2] * 0x1_0000 + bytes[at + 3] * 0x100_0000
    }
}

/// What a record holds, as mathematical values.
pub struct RecordView {
    pub kind: EventType,
    pub pid: u32,
    pub tid: u32,
    pub uid: u32,
    pub gid: u32,
    pub parent_pid: u32,
    pub command: Seq<u8>,
}

impl View for EbpfEvent {
    type V = RecordView;

    open spec fn view(&self) -> RecordView {
        RecordView {
            kind: self.kind,
            pid: self.pid,
            tid: self.tid,
            uid: self.uid,
            gid: self.gid,
            parent_pid: self.parent_pid,
            command: self.command@,
        }
    }
}

/// The record that `bytes` hold, in the byte order of a machine that is
/// big-endian or not: the kind, the pid, the tid, the uid, the gid and the
/// parent pid as 32-bit numbers, then the task command. There is none if the
/// bytes are fewer than a record or the kind is not one of the six.
pub open spec fn decoded(bytes: Seq<u8>, big_endian: bool) -> Option<RecordView> {
    if bytes.len() < RECORD_LENGTH {
        None
    } else {
        match EventType::spec_from_code(word_at(bytes, 0, big_endian) as u32) {
            Some(kind) => Some(
                RecordView {
                    kind,
                    pid: word_at(bytes, 4, big_endian) as u32,
                    tid: word_at(bytes, 8, big_endian) as u32,
                    uid: word_at(bytes, 12, big_endian) as u32,
                    gid: word_at(bytes, 16, big_endian) as u32,
                    parent_pid: word_at(bytes, 20, big_endian) as u32,
                    command: bytes.subrange(24, 40),
                },
            ),
            None => None,
        }
    }
}

/// Reads the 32-bit number at `at`.
fn read_word(bytes: &[u8], at: usize, big_endian: bool) -> (r: u32)
    requires
        at + 4 <= bytes@.len(),
    ensures
        r == word_at(bytes@, at as int, big_endian),
{
    let b0: u32 = bytes[at] as u32;
    let b1: u32 = bytes[at + 1] as u32;
    let b2: u32 = bytes[at + 2] as u32;
    let b3: u32 = bytes[at + 3] as u32;
    if big_endian {
        b0 * 0x100_0000 + b1 * 0x1_0000 + b2 * 0x100 + b3
    } else {
        b0 + b1 * 0x100 + b2 * 0x1_0000 + b3 * 0x100_0000
    }
}

impl EbpfEvent {
    /// Decodes one record of the ring buffer. `big_endian` says in which byte
    /// order the machine that wrote the record holds its numbers.
    pub fn decode(bytes: &[u8], big_endian: bool) -> (r: Option<EbpfEvent>)
        ensures
            match r {
                Some(event) => decoded(bytes@, big_endian) == Some(event@),
                None => decoded(bytes@, big_endian) is None,
            },
    {
        if bytes.len() < RECORD_LENGTH {
            return None;
        }
        let kind = match EventType::from_code(read_word(bytes, 0, big_endian)) {
            Some(kind) => kind,
            None => {
                return None;
            },
        };
        let mut command: [u8; TASK_COMM_LENGTH] = [0;TASK_COMM_LENGTH];
        let mut i: usize = 0;
        while i < TASK_COMM_LENGTH
            invariant
                i <= TASK_COMM_LENGTH,
                bytes@.len() >= RECORD_LENGTH,
                forall|j: int| 0 <= j < i ==> command@[j] == bytes@[24 + j],
            decreases TASK_COMM_LENGTH - i,
        {
            command[i] = bytes[24 + i];
            i += 1;
        }
        assert(command@ =~= bytes@.subrange(24, 40));
        Some(
            EbpfEvent {
                kind,
                pid: read_word(bytes, 4, big_endian),
                tid: read_word(bytes, 8, big_endian),
                uid: read_word(bytes, 12, big_endian),
                gid: read_word(bytes, 16, big_endian),
                parent_pid: read_word(bytes, 20, big_endian),
                command,
            },
        )
    }
}

/// Where the object file of the probe program is looked for.
#[derive(Debug, PartialEq)]
pub enum ObjectDir {
    /// In `ebpf` under the directory of the running executable.
    Executable,
    /// In `ebpf` under the working directory.
    Working,
    /// In the directory of this name.
    Named(String),
}

/// What `ObjectDir` holds, as mathematical values.
pub enum ObjectDirView {
    Executable,
    Working,
    Named(Seq<char>),
}

impl View for ObjectDir {
    type V = ObjectDirView;

    open spec fn view(&self) -> ObjectDirView {
        match self {
            ObjectDir::Executable => ObjectDirView::Executable,
            ObjectDir::Working => ObjectDirView::Working,
            ObjectDir::Named(name) => ObjectDirView::Named(name@),
        }
    }
}

impl ObjectDirView {
    /// Where the environment says to look: `EXE_DIR` and no setting mean the
    /// directory of the executable, `CUR_DIR` the working directory, and any
    /// other value is the name of the directory.
    pub open spec fn chosen(setting: Option<Seq<char>>) -> ObjectDirView {
        match setting {
            Some(value) => if value == "EXE_DIR"@ {
                ObjectDirView::Executable
            } else if value == "CUR_DIR"@ {
                ObjectDirView::Working
            } else {
                ObjectDirView::Named(value)
            },
            None => ObjectDirView::Executable,
        }
    }

    /// The path of the object file, where `base` is the directory of the
    /// executable or the working directory, whichever is looked in.
    pub open spec fn object_path(self, base: Seq<char>) -> Seq<char> {
        match self {
            ObjectDirView::Named(name) => joined(name, "fork_monitor.bpf.o"@),
            _ => joined(joined(base, "ebpf"@), "fork_monitor.bpf.o"@),
        }
    }
}

impl ObjectDir {
    /// Where to look for the object file, given the value of the environment
    /// variable `EBPF_OBJECT_DIR`, if it is set.
    pub fn from_setting(setting: Option<&str>) -> (r: ObjectDir)
        ensures
            r@ == ObjectDirView::chosen(
                match setting {
                    Some(value) => Some(value@),
                    None => None,
                },
            ),
    {
        match setting {
            Some(value) => {
                let value = String::from_str(value);
                if value == String::from_str("EXE_DIR") {
                    ObjectDir::Executable
                } else if value == String::from_str("CUR_DIR") {
                    ObjectDir::Working
                } else {
                    ObjectDir::Named(value)
                }
            },
            None => ObjectDir::Executable,
        }
    }

    /// The path of the object file `fork_monitor.bpf.o`, where `base` is the
    /// directory of the executable or the working directory, whichever is
    /// looked in; it is not read where a directory was named.
    pub fn object_path(&self, base: &str) -> (r: String)
        ensures
            r@ == self@.object_path(base@),
    {
        match self {
            ObjectDir::Named(name) => join_path(name.as_str(), "fork_monitor.bpf.o"),
            _ => {
                let dir = join_path(base, "ebpf");
                join_path(dir.as_str(), "fork_monitor.bpf.o")
            },
        }
    }
}

} // verus!
