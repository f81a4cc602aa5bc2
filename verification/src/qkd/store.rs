//! The store in which the daemon keeps the key of each session, and in which the
//! processes of a host share the keys of messages.
use crate::qkd::keys::{
    validate_identifier, wipe_key, KeyView, QkdKeyMaterial, MAX_KEY_ID_LEN, MAX_SAE_ID_LEN,
};
#[allow(unused_imports)]
use crate::qkd::keys;
use crate::text::{text_equal, utf8_text};
use vstd::prelude::*;
#[allow(unused_imports)]
use vstd::utf8::*;

verus! {

/// The name of the shared-memory segment.
pub const QKD_SHM_NAME: &'static str = "/axon_qkd_keys";

/// Marks a segment of this layout.
pub const QKD_SHM_MAGIC: u32 = 0x4158_514c;

/// How many sessions a store holds.
pub const MAX_QKD_SESSIONS: usize = 32;

/// How many message keys a store holds.
pub const MAX_QKD_MESSAGE_KEYS: usize = 4096;

pub const ENTRY_EMPTY: u8 = 0;

pub const ENTRY_PENDING: u8 = 1;

pub const ENTRY_ACTIVE: u8 = 2;

pub const MESSAGE_ENTRY_EMPTY: u8 = 0;

pub const MESSAGE_ENTRY_WRITING: u8 = 1;

pub const MESSAGE_ENTRY_PENDING: u8 = 2;

pub const MESSAGE_ENTRY_READY: u8 = 3;

/// A text in a field of fixed size.
pub struct Label {
    pub len: u16,
    pub bytes: Vec<u8>,
}

/// What a text in a field of fixed size holds.
#[verifier::ext_equal]
pub struct LabelView {
    pub len: nat,
    pub bytes: Seq<u8>,
}

impl View for Label {
    type V = LabelView;

    open spec fn view(&self) -> LabelView {
        LabelView { len: self.len as nat, bytes: self.bytes@ }
    }
}

/// `n` zeros.
pub open spec fn zeros(n: nat) -> Seq<u8> {
    Seq::new(n, |i: int| 0u8)
}

/// `b` in a field of `n` bytes, with zeros behind it.
pub open spec fn padded(b: Seq<u8>, n: nat) -> Seq<u8> {
    Seq::new(n, |i: int| if i < b.len() { b[i] } else { 0u8 })
}

/// A field of `n` bytes that holds a text.
pub open spec fn label_of(s: Seq<char>, n: nat) -> LabelView {
    LabelView { len: encode_utf8(s).len(), bytes: padded(encode_utf8(s), n) }
}

/// A field of `n` bytes that holds nothing.
pub open spec fn blank_label(n: nat) -> LabelView {
    LabelView { len: 0, bytes: zeros(n) }
}

impl LabelView {
    /// The text in the field, where there is one.
    pub open spec fn text(self) -> Option<Seq<char>> {
        if self.len == 0 || self.len > self.bytes.len() {
            None
        } else {
            let b = self.bytes.subrange(0, self.len as int);
            if valid_utf8(b) {
                Some(decode_utf8(b))
            } else {
                None
            }
        }
    }
}

/// A text that fits a field is read back from it.
pub proof fn law_label_round_trip(s: Seq<char>, n: nat)
    requires
        0 < encode_utf8(s).len() <= n,
    ensures
        label_of(s, n).text() == Some(s),
{
    broadcast use {encode_utf8_valid_utf8, encode_utf8_decode_utf8};

    let b = encode_utf8(s);
    assert(label_of(s, n).bytes.subrange(0, b.len() as int) =~= b);
}

impl Label {
    /// A field of `n` bytes that holds nothing.
    pub fn blank(n: usize) -> (r: Label)
        ensures
            r@ == blank_label(n as nat),
    {
        let mut bytes: Vec<u8> = Vec::new();
        let mut i: usize = 0;
        while i < n
            invariant
                i <= n,
                bytes@ == zeros(i as nat),
            decreases n - i,
        {
            bytes.push(0);
            i += 1;
            proof {
                assert(bytes@ =~= zeros(i as nat));
            }
        }
        Label { len: 0, bytes }
    }

    /// Puts a text into the field.
    pub(crate) fn store(&mut self, value: &str)
        requires
            encode_utf8(value@).len() <= u16::MAX,
        ensures
            final(self)@ == label_of(value@, old(self)@.bytes.len()),
    {
        let b = value.as_bytes();
        let ghost n = self.bytes@.len();
        let mut i: usize = 0;
        while i < self.bytes.len()
            invariant
                i <= self.bytes@.len() == n,
                b@ == encode_utf8(value@),
                forall|k: int|
                    0 <= k < i ==> (#[trigger] self.bytes@[k]) == padded(b@, n)[k],
            decreases self.bytes.len() - i,
        {
            self.bytes[i] = if i < b.len() {
                b[i]
            } else {
                0
            };
            i += 1;
        }
        self.len = b.len() as u16;
        proof {
            assert(self.bytes@ =~= padded(b@, n));
        }
    }

    /// Empties the field.
    fn clear(&mut self)
        ensures
            final(self)@ == blank_label(old(self)@.bytes.len()),
    {
        let ghost n = self.bytes@.len();
        let mut i: usize = 0;
        while i < self.bytes.len()
            invariant
                i <= self.bytes@.len() == n,
                forall|k: int| 0 <= k < i ==> (#[trigger] self.bytes@[k]) == 0,
            decreases self.bytes.len() - i,
        {
            self.bytes[i] = 0;
            i += 1;
        }
        self.len = 0;
        proof {
            assert(self.bytes@ =~= zeros(n));
        }
    }

    /// The text in the field, where there is one.
    pub fn text(&self) -> (r: Option<String>)
        ensures
            match r {
                Some(s) => self@.text() == Some(s@),
                None => self@.text() is None,
            },
    {
        let len: usize = self.len as usize;
        if len == 0 || len > self.bytes.len() {
            return None;
        }
        match utf8_text(vstd::slice::slice_subrange(self.bytes.as_slice(), 0, len)) {
            Some(s) => Some(s.to_owned()),
            None => None,
        }
    }

    /// Whether the field holds this text.
    pub(crate) fn holds(&self, value: &str) -> (r: bool)
        ensures
            r == (self@.text() == Some(value@)),
    {
        match self.text() {
            Some(s) => text_equal(s.as_str(), value),
            None => false,
        }
    }
}

/// The key of one session.
pub struct QkdEntry {
    pub state: u8,
    pub remote_daemon_id: u64,
    pub key: [u8; 32],
    pub key_id: Label,
    pub remote_sae_id: Label,
}

/// What the key of a session holds.
#[verifier::ext_equal]
pub struct EntryView {
    pub state: u8,
    pub remote_daemon_id: u64,
    pub key: Seq<u8>,
    pub key_id: LabelView,
    pub remote_sae_id: LabelView,
}

impl View for QkdEntry {
    type V = EntryView;

    open spec fn view(&self) -> EntryView {
        EntryView {
            state: self.state,
            remote_daemon_id: self.remote_daemon_id,
            key: self.key@,
            key_id: self.key_id@,
            remote_sae_id: self.remote_sae_id@,
        }
    }
}

/// The key of one message.
pub struct QkdMessageEntry {
    pub state: u8,
    pub writer_pid: u32,
    pub generation: u64,
    pub key: [u8; 32],
    pub key_id: Label,
    pub sender_sae_id: Label,
}

/// What the key of a message holds.
#[verifier::ext_equal]
pub struct MessageView {
    pub state: u8,
    pub writer_pid: u32,
    pub generation: u64,
    pub key: Seq<u8>,
    pub key_id: LabelView,
    pub sender_sae_id: LabelView,
}

impl View for QkdMessageEntry {
    type V = MessageView;

    open spec fn view(&self) -> MessageView {
        MessageView {
            state: self.state,
            writer_pid: self.writer_pid,
            generation: self.generation,
            key: self.key@,
            key_id: self.key_id@,
            sender_sae_id: self.sender_sae_id@,
        }
    }
}

/// What stands before the keys.
pub struct QkdHeader {
    pub magic: u32,
    pub daemon_pid: u32,
    pub generation: u64,
    pub local_sae_id: Label,
}

/// The keys of the sessions and of the messages.
pub struct QkdKeyStore {
    pub header: QkdHeader,
    pub entries: Vec<QkdEntry>,
    pub message_entries: Vec<QkdMessageEntry>,
}

/// What a store holds.
#[verifier::ext_equal]
pub struct StoreView {
    pub magic: u32,
    pub daemon_pid: u32,
    pub generation: u64,
    pub local_sae_id: LabelView,
    pub entries: Seq<EntryView>,
    pub messages: Seq<MessageView>,
}

/// What a list of session keys holds.
pub open spec fn entries_view(s: Seq<QkdEntry>) -> Seq<EntryView> {
    Seq::new(s.len(), |i: int| s[i]@)
}

/// What a list of message keys holds.
pub open spec fn messages_view(s: Seq<QkdMessageEntry>) -> Seq<MessageView> {
    Seq::new(s.len(), |i: int| s[i]@)
}

impl View for QkdKeyStore {
    type V = StoreView;

    open spec fn view(&self) -> StoreView {
        StoreView {
            magic: self.header.magic,
            daemon_pid: self.header.daemon_pid,
            generation: self.header.generation,
            local_sae_id: self.header.local_sae_id@,
            entries: entries_view(self.entries@),
            messages: messages_view(self.message_entries@),
        }
    }
}

/// Whether the fields of a session key have their sizes.
pub open spec fn entry_shaped(e: EntryView) -> bool {
    &&& e.key_id.bytes.len() == MAX_KEY_ID_LEN
    &&& e.remote_sae_id.bytes.len() == MAX_SAE_ID_LEN
}

/// Whether the fields of a message key have their sizes.
pub open spec fn message_shaped(m: MessageView) -> bool {
    &&& m.key_id.bytes.len() == MAX_KEY_ID_LEN
    &&& m.sender_sae_id.bytes.len() == MAX_SAE_ID_LEN
}

impl StoreView {
    /// Whether the store has its shape.
    pub open spec fn wf(self) -> bool {
        &&& self.local_sae_id.bytes.len() == MAX_SAE_ID_LEN
        &&& self.entries.len() == MAX_QKD_SESSIONS
        &&& self.messages.len() == MAX_QKD_MESSAGE_KEYS
        &&& forall|i: int| 0 <= i < self.entries.len() ==> entry_shaped(#[trigger] self.entries[i])
        &&& forall|i: int|
            0 <= i < self.messages.len() ==> message_shaped(#[trigger] self.messages[i])
    }
}

/// A session key that is not there.
pub open spec fn blank_entry() -> EntryView {
    EntryView {
        state: ENTRY_EMPTY,
        remote_daemon_id: 0,
        key: zeros(32),
        key_id: blank_label(MAX_KEY_ID_LEN as nat),
        remote_sae_id: blank_label(MAX_SAE_ID_LEN as nat),
    }
}

/// A message key that is not there.
pub open spec fn blank_message() -> MessageView {
    MessageView {
        state: MESSAGE_ENTRY_EMPTY,
        writer_pid: 0,
        generation: 0,
        key: zeros(32),
        key_id: blank_label(MAX_KEY_ID_LEN as nat),
        sender_sae_id: blank_label(MAX_SAE_ID_LEN as nat),
    }
}

/// The next generation; it starts over behind the last.
pub open spec fn next_generation(g: u64) -> u64 {
    if g == u64::MAX {
        0
    } else {
        (g + 1) as u64
    }
}

/// A store without keys.
pub open spec fn blank_store(local_sae_id: Seq<char>, pid: u32, generation: u64) -> StoreView {
    StoreView {
        magic: QKD_SHM_MAGIC,
        daemon_pid: pid,
        generation,
        local_sae_id: label_of(local_sae_id, MAX_SAE_ID_LEN as nat),
        entries: Seq::new(MAX_QKD_SESSIONS as nat, |i: int| blank_entry()),
        messages: Seq::new(MAX_QKD_MESSAGE_KEYS as nat, |i: int| blank_message()),
    }
}

fn fresh_entry() -> (r: QkdEntry)
    ensures
        r@ == blank_entry(),
{
    let r = QkdEntry {
        state: ENTRY_EMPTY,
        remote_daemon_id: 0,
        key: [0u8;32],
        key_id: Label::blank(MAX_KEY_ID_LEN),
        remote_sae_id: Label::blank(MAX_SAE_ID_LEN),
    };
    proof {
        assert(r.key@ =~= zeros(32));
    }
    r
}

pub(crate) fn fresh_message() -> (r: QkdMessageEntry)
    ensures
        r@ == blank_message(),
{
    let r = QkdMessageEntry {
        state: MESSAGE_ENTRY_EMPTY,
        writer_pid: 0,
        generation: 0,
        key: [0u8;32],
        key_id: Label::blank(MAX_KEY_ID_LEN),
        sender_sae_id: Label::blank(MAX_SAE_ID_LEN),
    };
    proof {
        assert(r.key@ =~= zeros(32));
    }
    r
}

fn fresh_entries() -> (r: Vec<QkdEntry>)
    ensures
        entries_view(r@) == Seq::new(MAX_QKD_SESSIONS as nat, |i: int| blank_entry()),
{
    let mut r: Vec<QkdEntry> = Vec::new();
    while r.len() < MAX_QKD_SESSIONS
        invariant
            r@.len() <= MAX_QKD_SESSIONS,
            forall|i: int| 0 <= i < r@.len() ==> (#[trigger] r@[i])@ == blank_entry(),
        decreases MAX_QKD_SESSIONS - r@.len(),
    {
        r.push(fresh_entry());
    }
    proof {
        assert(entries_view(r@) =~= Seq::new(MAX_QKD_SESSIONS as nat, |i: int| blank_entry()));
    }
    r
}

fn fresh_messages() -> (r: Vec<QkdMessageEntry>)
    ensures
        messages_view(r@) == Seq::new(MAX_QKD_MESSAGE_KEYS as nat, |i: int| blank_message()),
{
    let mut r: Vec<QkdMessageEntry> = Vec::new();
    while r.len() < MAX_QKD_MESSAGE_KEYS
        invariant
            r@.len() <= MAX_QKD_MESSAGE_KEYS,
            forall|i: int| 0 <= i < r@.len() ==> (#[trigger] r@[i])@ == blank_message(),
        decreases MAX_QKD_MESSAGE_KEYS - r@.len(),
    {
        r.push(fresh_message());
    }
    proof {
        assert(messages_view(r@) =~= Seq::new(
            MAX_QKD_MESSAGE_KEYS as nat,
            |i: int| blank_message(),
        ));
    }
    r
}

/// Why a store cannot be created or opened.
#[derive(Debug)]
pub enum StoreError {
    InvalidInput(String),
    PermissionDenied(String),
    InvalidData(String),
}

/// The kind of an error number of the system.
#[derive(Debug, Clone, Copy, PartialEq, Eq, Structural)]
pub enum SystemErrorKind {
    NotFound,
    AlreadyExists,
    PermissionDenied,
    Other,
}

/// The kind of an error number of the system: no such entry, entry exists, access
/// denied, or another.
pub fn nix_to_io(errno: i32) -> (r: SystemErrorKind)
    ensures
        r == (if errno == 2 {
            SystemErrorKind::NotFound
        } else if errno == 17 {
            SystemErrorKind::AlreadyExists
        } else if errno == 13 || errno == 1 {
            SystemErrorKind::PermissionDenied
        } else {
            SystemErrorKind::Other
        }),
{
    if errno == 2 {
        SystemErrorKind::NotFound
    } else if errno == 17 {
        SystemErrorKind::AlreadyExists
    } else if errno == 13 || errno == 1 {
        SystemErrorKind::PermissionDenied
    } else {
        SystemErrorKind::Other
    }
}

/// The bytes of a segment: its parts, rounded up to whole pages.
pub open spec fn store_size(header: nat, entry: nat, message: nat) -> nat {
    let raw = header + entry * MAX_QKD_SESSIONS as nat + message * MAX_QKD_MESSAGE_KEYS as nat;
    (raw + 4095) / 4096 * 4096
}

/// The bytes of a segment whose parts have these sizes.
pub fn qkd_shm_size(header: usize, entry: usize, message: usize) -> (r: usize)
    requires
        header + entry * MAX_QKD_SESSIONS + message * MAX_QKD_MESSAGE_KEYS + 4095 <= usize::MAX,
    ensures
        r == store_size(header as nat, entry as nat, message as nat),
{
    let sessions: usize = entry * MAX_QKD_SESSIONS;
    let keys: usize = message * MAX_QKD_MESSAGE_KEYS;
    let raw: usize = header + sessions + keys;
    (raw + 4095) / 4096 * 4096
}

/// Tests the name of a segment.
pub fn check_segment_name(name: &str) -> (r: Result<(), StoreError>)
    ensures
        match r {
            Ok(()) => !name@.contains('\0'),
            Err(e) => name@.contains('\0') && (e matches StoreError::InvalidInput(s) && s@
                == "QKD SHM name contains a null byte"@),
        },
{
    let chars = crate::text::chars_of(name);
    let mut i: usize = 0;
    while i < chars.len()
        invariant
            i <= chars@.len(),
            chars@ == name@,
            forall|k: int| 0 <= k < i ==> (#[trigger] chars@[k]) != '\0',
        decreases chars.len() - i,
    {
        if chars[i] == '\0' {
            proof {
                assert(name@[i as int] == '\0');
            }
            return Err(StoreError::InvalidInput("QKD SHM name contains a null byte".to_owned()));
        }
        i += 1;
    }
    Ok(())
}

/// Whether the permissions of a file leave out everyone but its owner.
pub open spec fn owner_only(mode: u32) -> bool {
    mode % 64 == 0
}

/// Tests a segment before it is mapped: it must belong to this user, who alone may
/// use it, and it must be large enough.
pub fn check_segment(st_uid: u32, st_mode: u32, st_size: i64, current_uid: u32, size: i64) -> (r:
    Result<(), StoreError>)
    ensures
        match r {
            Ok(()) => st_uid == current_uid && owner_only(st_mode) && st_size >= size,
            Err(StoreError::PermissionDenied(s)) => (st_uid != current_uid || !owner_only(st_mode))
                && s@
                == "QKD SHM must be owned by the current user and inaccessible to group/other"@,
            Err(StoreError::InvalidData(s)) => st_uid == current_uid && owner_only(st_mode)
                && st_size < size && s@ == "QKD SHM is smaller than expected"@,
            Err(StoreError::InvalidInput(_)) => false,
        },
{
    if st_uid != current_uid || st_mode % 64 != 0 {
        return Err(
            StoreError::PermissionDenied(
                "QKD SHM must be owned by the current user and inaccessible to group/other".to_owned(),
            ),
        );
    }
    if st_size < size {
        return Err(StoreError::InvalidData("QKD SHM is smaller than expected".to_owned()));
    }
    Ok(())
}

impl QkdKeyStore {
    /// Whether the store has its shape.
    pub open spec fn wf(self) -> bool {
        self@.wf()
    }

    /// A store without keys.
    pub fn create(local_sae_id: &str, pid: u32) -> (r: Result<QkdKeyStore, StoreError>)
        ensures
            match r {
                Ok(s) => keys::identifier_ok(local_sae_id@, MAX_SAE_ID_LEN as nat) && s@
                    == blank_store(local_sae_id@, pid, 0) && s.wf(),
                Err(e) => e matches StoreError::InvalidInput(m) && keys::identifier_fault(
                    "local SAE ID"@,
                    local_sae_id@,
                    MAX_SAE_ID_LEN as nat,
                ) == Some(m@),
            },
    {
        match validate_identifier("local SAE ID", local_sae_id, MAX_SAE_ID_LEN) {
            Ok(()) => {},
            Err(e) => {
                return Err(StoreError::InvalidInput(e));
            },
        }
        let mut label = Label::blank(MAX_SAE_ID_LEN);
        label.store(local_sae_id);
        Ok(
            QkdKeyStore {
                header: QkdHeader {
                    magic: QKD_SHM_MAGIC,
                    daemon_pid: pid,
                    generation: 0,
                    local_sae_id: label,
                },
                entries: fresh_entries(),
                message_entries: fresh_messages(),
            },
        )
    }

    /// A store that a segment holds, where its mark is right.
    pub fn open(image: QkdKeyStore) -> (r: Result<QkdKeyStore, StoreError>)
        ensures
            match r {
                Ok(s) => image@.magic == QKD_SHM_MAGIC && s == image,
                Err(e) => image@.magic != QKD_SHM_MAGIC && (e matches StoreError::InvalidData(m)
                    && m@ == "invalid QKD SHM magic"@),
            },
    {
        if image.header.magic != QKD_SHM_MAGIC {
            return Err(StoreError::InvalidData("invalid QKD SHM magic".to_owned()));
        }
        Ok(image)
    }

    /// Drops all keys and starts over for another entity.
    pub fn reset(&mut self, local_sae_id: &str, pid: u32) -> (r: Result<(), String>)
        requires
            old(self).wf(),
        ensures
            final(self).wf(),
            match r {
                Ok(()) => keys::identifier_ok(local_sae_id@, MAX_SAE_ID_LEN as nat) && final(self)@
                    == blank_store(local_sae_id@, pid, next_generation(old(self)@.generation)),
                Err(e) => final(self)@ == old(self)@ && keys::identifier_fault(
                    "local SAE ID"@,
                    local_sae_id@,
                    MAX_SAE_ID_LEN as nat,
                ) == Some(e@),
            },
    {
        validate_identifier("local SAE ID", local_sae_id, MAX_SAE_ID_LEN)?;
        self.entries = fresh_entries();
        self.message_entries = fresh_messages();
        self.header.daemon_pid = pid;
        self.header.local_sae_id.store(local_sae_id);
        self.header.generation = self.header.generation.wrapping_add(1);
        self.header.magic = QKD_SHM_MAGIC;
        Ok(())
    }

    /// Drops all keys. The store belongs to no daemon any more.
    pub fn clear(&mut self)
        requires
            old(self).wf(),
        ensures
            final(self).wf(),
            final(self)@ == (StoreView {
                daemon_pid: 0,
                generation: next_generation(old(self)@.generation),
                entries: Seq::new(MAX_QKD_SESSIONS as nat, |i: int| blank_entry()),
                messages: Seq::new(MAX_QKD_MESSAGE_KEYS as nat, |i: int| blank_message()),
                ..old(self)@
            }),
    {
        self.entries = fresh_entries();
        self.message_entries = fresh_messages();
        self.header.daemon_pid = 0;
        self.header.generation = self.header.generation.wrapping_add(1);
    }

    /// The identifier of the local entity.
    pub fn local_sae_id(&self) -> (r: Result<String, String>)
        requires
            self.wf(),
        ensures
            match r {
                Ok(s) => self@.local_sae_id.len < MAX_SAE_ID_LEN && self@.local_sae_id.text()
                    == Some(s@),
                Err(e) => e@ == (if self@.local_sae_id.len == 0 || self@.local_sae_id.len
                    >= MAX_SAE_ID_LEN {
                    "invalid local SAE ID in QKD SHM"@
                } else {
                    "QKD SHM local SAE ID is not UTF-8"@
                }) && local_text(self@) is None,
            },
    {
        let len: usize = self.header.local_sae_id.len as usize;
        if len == 0 || len >= MAX_SAE_ID_LEN {
            return Err("invalid local SAE ID in QKD SHM".to_owned());
        }
        match self.header.local_sae_id.text() {
            Some(s) => Ok(s),
            None => Err("QKD SHM local SAE ID is not UTF-8".to_owned()),
        }
    }
}

/// The identifier of the local entity, where there is one.
pub open spec fn local_text(s: StoreView) -> Option<Seq<char>> {
    if s.local_sae_id.len >= MAX_SAE_ID_LEN {
        None
    } else {
        s.local_sae_id.text()
    }
}

/// The first session key of a daemon.
pub open spec fn entry_of(entries: Seq<EntryView>, id: u64) -> Option<int>
    decreases entries.len(),
{
    if entries.len() == 0 {
        None
    } else {
        match entry_of(entries.drop_last(), id) {
            Some(i) => Some(i),
            None => if entries.last().state != ENTRY_EMPTY && entries.last().remote_daemon_id
                == id {
                Some(entries.len() - 1)
            } else {
                None
            },
        }
    }
}

/// The first place for a session key.
pub open spec fn first_empty(entries: Seq<EntryView>) -> Option<int>
    decreases entries.len(),
{
    if entries.len() == 0 {
        None
    } else {
        match first_empty(entries.drop_last()) {
            Some(i) => Some(i),
            None => if entries.last().state == ENTRY_EMPTY {
                Some(entries.len() - 1)
            } else {
                None
            },
        }
    }
}

/// Where the session key of a daemon goes: over its old one, else to an empty place,
/// else over the first.
pub open spec fn place_for(entries: Seq<EntryView>, id: u64) -> int {
    match entry_of(entries, id) {
        Some(i) => i,
        None => match first_empty(entries) {
            Some(i) => i,
            None => 0,
        },
    }
}

proof fn lemma_entry_of(entries: Seq<EntryView>, id: u64)
    ensures
        match entry_of(entries, id) {
            Some(i) => 0 <= i < entries.len() && entries[i].state != ENTRY_EMPTY
                && entries[i].remote_daemon_id == id && forall|k: int|
                0 <= k < i ==> (#[trigger] entries[k]).state == ENTRY_EMPTY
                    || entries[k].remote_daemon_id != id,
            None => forall|k: int|
                0 <= k < entries.len() ==> (#[trigger] entries[k]).state == ENTRY_EMPTY
                    || entries[k].remote_daemon_id != id,
        },
    decreases entries.len(),
{
    if entries.len() > 0 {
        let d = entries.drop_last();
        lemma_entry_of(d, id);
        assert forall|k: int| 0 <= k < entries.len() - 1 implies (#[trigger] entries[k]) == d[k] by {
        }
    }
}

proof fn lemma_first_empty(entries: Seq<EntryView>)
    ensures
        match first_empty(entries) {
            Some(i) => 0 <= i < entries.len() && entries[i].state == ENTRY_EMPTY && forall|k: int|
                0 <= k < i ==> (#[trigger] entries[k]).state != ENTRY_EMPTY,
            None => forall|k: int|
                0 <= k < entries.len() ==> (#[trigger] entries[k]).state != ENTRY_EMPTY,
        },
    decreases entries.len(),
{
    if entries.len() > 0 {
        let d = entries.drop_last();
        lemma_first_empty(d);
        assert forall|k: int| 0 <= k < entries.len() - 1 implies (#[trigger] entries[k]) == d[k] by {
        }
    }
}

/// A session key as it is stored.
pub open spec fn stored_entry(id: u64, remote_sae_id: Seq<char>, m: KeyView, active: bool) -> EntryView {
    EntryView {
        state: if active {
            ENTRY_ACTIVE
        } else {
            ENTRY_PENDING
        },
        remote_daemon_id: id,
        key: m.key,
        key_id: label_of(m.key_id, MAX_KEY_ID_LEN as nat),
        remote_sae_id: label_of(remote_sae_id, MAX_SAE_ID_LEN as nat),
    }
}

/// What keeps a session key from being stored.
pub open spec fn put_fault(remote_sae_id: Seq<char>, key_id: Seq<char>) -> Option<Seq<char>> {
    match keys::identifier_fault("remote SAE ID"@, remote_sae_id, MAX_SAE_ID_LEN as nat) {
        Some(e) => Some(e),
        None => keys::identifier_fault("QKD key_ID"@, key_id, MAX_KEY_ID_LEN as nat),
    }
}

/// The store with the session key of a daemon.
pub open spec fn with_key(
    s: StoreView,
    id: u64,
    remote_sae_id: Seq<char>,
    m: KeyView,
    active: bool,
) -> StoreView {
    StoreView {
        generation: next_generation(s.generation),
        entries: s.entries.update(
            place_for(s.entries, id),
            stored_entry(id, remote_sae_id, m, active),
        ),
        ..s
    }
}

/// Whether an entry holds this key of this daemon.
pub open spec fn holds_key(e: EntryView, id: u64, key_id: Seq<char>) -> bool {
    &&& e.state == ENTRY_PENDING || e.state == ENTRY_ACTIVE
    &&& e.remote_daemon_id == id
    &&& e.key_id.text() == Some(key_id)
}

/// The first entry that holds this key of this daemon.
pub open spec fn key_of(entries: Seq<EntryView>, id: u64, key_id: Seq<char>) -> Option<int>
    decreases entries.len(),
{
    if entries.len() == 0 {
        None
    } else {
        match key_of(entries.drop_last(), id, key_id) {
            Some(i) => Some(i),
            None => if holds_key(entries.last(), id, key_id) {
                Some(entries.len() - 1)
            } else {
                None
            },
        }
    }
}

proof fn lemma_key_of_bounds(entries: Seq<EntryView>, id: u64, key_id: Seq<char>)
    ensures
        key_of(entries, id, key_id) matches Some(i) ==> 0 <= i < entries.len() && holds_key(
            entries[i],
            id,
            key_id,
        ),
    decreases entries.len(),
{
    if entries.len() > 0 {
        lemma_key_of_bounds(entries.drop_last(), id, key_id);
    }
}

/// The entries without the keys of a daemon.
pub open spec fn without_daemon(entries: Seq<EntryView>, id: u64) -> Seq<EntryView> {
    Seq::new(
        entries.len(),
        |i: int|
            if entries[i].state != ENTRY_EMPTY && entries[i].remote_daemon_id == id {
                blank_entry()
            } else {
                entries[i]
            },
    )
}

/// The generation after as many steps as a daemon has keys.
pub open spec fn stepped(g: u64, entries: Seq<EntryView>, id: u64) -> u64
    decreases entries.len(),
{
    if entries.len() == 0 {
        g
    } else {
        let before = stepped(g, entries.drop_last(), id);
        if entries.last().state != ENTRY_EMPTY && entries.last().remote_daemon_id == id {
            next_generation(before)
        } else {
            before
        }
    }
}

/// The key of a session, with the entities at its ends.
pub struct QkdSessionKey {
    pub remote_daemon_id: u64,
    pub local_sae_id: String,
    pub remote_sae_id: String,
    pub key_id: String,
    pub key: [u8; 32],
    pub active: bool,
}

/// What the key of a session holds.
#[verifier::ext_equal]
pub struct SessionKeyView {
    pub remote_daemon_id: u64,
    pub local_sae_id: Seq<char>,
    pub remote_sae_id: Seq<char>,
    pub key_id: Seq<char>,
    pub key: Seq<u8>,
    pub active: bool,
}

impl View for QkdSessionKey {
    type V = SessionKeyView;

    open spec fn view(&self) -> SessionKeyView {
        SessionKeyView {
            remote_daemon_id: self.remote_daemon_id,
            local_sae_id: self.local_sae_id@,
            remote_sae_id: self.remote_sae_id@,
            key_id: self.key_id@,
            key: self.key@,
            active: self.active,
        }
    }
}

impl Clone for QkdSessionKey {
    fn clone(&self) -> (r: QkdSessionKey)
        ensures
            r@ == self@,
    {
        QkdSessionKey {
            remote_daemon_id: self.remote_daemon_id,
            local_sae_id: self.local_sae_id.clone(),
            remote_sae_id: self.remote_sae_id.clone(),
            key_id: self.key_id.clone(),
            key: self.key,
            active: self.active,
        }
    }
}

impl Drop for QkdSessionKey {
    fn drop(&mut self)
        ensures
            forall|i: int| 0 <= i < 32 ==> final(self).key@[i] == 0,
        opens_invariants none
        no_unwind
    {
        wipe_key(&mut self.key);
    }
}

/// The session whose key an entry holds, where its texts are readable.
pub open spec fn session_of(local: Option<Seq<char>>, e: EntryView) -> Option<SessionKeyView> {
    if e.state != ENTRY_PENDING && e.state != ENTRY_ACTIVE {
        None
    } else {
        match (local, e.remote_sae_id.text(), e.key_id.text()) {
            (Some(local_sae_id), Some(remote_sae_id), Some(key_id)) => Some(
                SessionKeyView {
                    remote_daemon_id: e.remote_daemon_id,
                    local_sae_id,
                    remote_sae_id,
                    key_id,
                    key: e.key,
                    active: e.state == ENTRY_ACTIVE,
                },
            ),
            _ => None,
        }
    }
}

/// Which session is looked for.
pub enum SessionQuery<'a> {
    /// That with a daemon.
    Daemon { id: u64, require_active: bool },
    /// That of a key, with a given entity at its other end, or any.
    Key { key_id: &'a str, require_active: bool, remote_sae_id: Option<&'a str> },
}

/// Which session is looked for.
#[verifier::ext_equal]
pub enum QueryView {
    Daemon { id: u64, require_active: bool },
    Key { key_id: Seq<char>, require_active: bool, remote_sae_id: Option<Seq<char>> },
}

impl<'a> View for SessionQuery<'a> {
    type V = QueryView;

    open spec fn view(&self) -> QueryView {
        match self {
            SessionQuery::Daemon { id, require_active } => QueryView::Daemon {
                id: *id,
                require_active: *require_active,
            },
            SessionQuery::Key { key_id, require_active, remote_sae_id } => QueryView::Key {
                key_id: key_id@,
                require_active: *require_active,
                remote_sae_id: match remote_sae_id {
                    Some(s) => Some(s@),
                    None => None,
                },
            },
        }
    }
}

/// Whether an entry is what a query looks for.
pub open spec fn selected(q: QueryView, e: EntryView) -> bool {
    match q {
        QueryView::Daemon { id, require_active } => {
            &&& e.state != ENTRY_EMPTY
            &&& require_active ==> e.state == ENTRY_ACTIVE
            &&& e.remote_daemon_id == id
        },
        QueryView::Key { key_id, require_active, remote_sae_id } => {
            &&& e.state == ENTRY_ACTIVE || (!require_active && e.state == ENTRY_PENDING)
            &&& e.key_id.text() == Some(key_id)
            &&& remote_sae_id is Some ==> e.remote_sae_id.text() == remote_sae_id
        },
    }
}

/// The first readable session among the entries that a query looks for.
pub open spec fn found(
    q: QueryView,
    local: Option<Seq<char>>,
    entries: Seq<EntryView>,
) -> Option<SessionKeyView>
    decreases entries.len(),
{
    if entries.len() == 0 {
        None
    } else {
        match found(q, local, entries.drop_last()) {
            Some(k) => Some(k),
            None => if selected(q, entries.last()) {
                session_of(local, entries.last())
            } else {
                None
            },
        }
    }
}

/// What a result about a session says.
pub open spec fn session_result(r: Option<QkdSessionKey>) -> Option<SessionKeyView> {
    match r {
        Some(k) => Some(k@),
        None => None,
    }
}

impl QkdKeyStore {
    /// Where the session key of a daemon goes.
    fn find_place(&self, id: u64) -> (r: usize)
        requires
            self.wf(),
        ensures
            r == place_for(self@.entries, id),
            r < self.entries@.len(),
    {
        let ghost es = self@.entries;
        let mut i: usize = 0;
        let mut empty: Option<usize> = None;
        proof {
            assert(es.subrange(0, 0) =~= Seq::empty());
        }
        while i < self.entries.len()
            invariant
                i <= self.entries@.len(),
                es == self@.entries,
                entry_of(es.subrange(0, i as int), id) is None,
                match empty {
                    Some(k) => first_empty(es.subrange(0, i as int)) == Some(k as int) && k < i,
                    None => first_empty(es.subrange(0, i as int)) is None,
                },
            decreases self.entries.len() - i,
        {
            proof {
                assert(es.subrange(0, i + 1).drop_last() =~= es.subrange(0, i as int));
                assert(es.subrange(0, i + 1).last() == self.entries@[i as int]@);
            }
            if self.entries[i].state != ENTRY_EMPTY && self.entries[i].remote_daemon_id == id {
                proof {
                    lemma_found_first(es, id, i as int);
                }
                return i;
            }
            if self.entries[i].state == ENTRY_EMPTY && empty.is_none() {
                empty = Some(i);
            }
            i += 1;
        }
        proof {
            assert(es.subrange(0, i as int) =~= es);
        }
        match empty {
            Some(k) => k,
            None => 0,
        }
    }

    /// Stores the session key of a daemon: over its old one, else in an empty place,
    /// else over the first.
    pub fn put(
        &mut self,
        remote_daemon_id: u64,
        remote_sae_id: &str,
        material: &QkdKeyMaterial,
        active: bool,
    ) -> (r: Result<(), String>)
        requires
            old(self).wf(),
        ensures
            final(self).wf(),
            match r {
                Ok(()) => put_fault(remote_sae_id@, material@.key_id) is None && final(self)@
                    == with_key(old(self)@, remote_daemon_id, remote_sae_id@, material@, active),
                Err(e) => put_fault(remote_sae_id@, material@.key_id) == Some(e@) && final(self)@
                    == old(self)@,
            },
    {
        validate_identifier("remote SAE ID", remote_sae_id, MAX_SAE_ID_LEN)?;
        validate_identifier("QKD key_ID", material.key_id.as_str(), MAX_KEY_ID_LEN)?;
        let i: usize = self.find_place(remote_daemon_id);
        let mut entry = fresh_entry();
        entry.remote_daemon_id = remote_daemon_id;
        entry.key = material.key;
        entry.key_id.store(material.key_id.as_str());
        entry.remote_sae_id.store(remote_sae_id);
        entry.state = if active {
            ENTRY_ACTIVE
        } else {
            ENTRY_PENDING
        };
        let ghost new = entry@;
        self.entries.set(i, entry);
        self.header.generation = self.header.generation.wrapping_add(1);
        proof {
            assert(self@.entries =~= old(self)@.entries.update(i as int, new));
        }
        Ok(())
    }

    /// Makes a pending key of a daemon the active one. Whether the daemon has that
    /// key.
    pub fn activate(&mut self, remote_daemon_id: u64, key_id: &str) -> (r: bool)
        requires
            old(self).wf(),
        ensures
            final(self).wf(),
            match key_of(old(self)@.entries, remote_daemon_id, key_id@) {
                None => !r && final(self)@ == old(self)@,
                Some(i) => r && final(self)@ == (if old(self)@.entries[i].state == ENTRY_ACTIVE {
                    old(self)@
                } else {
                    StoreView {
                        generation: next_generation(old(self)@.generation),
                        entries: old(self)@.entries.update(
                            i,
                            EntryView { state: ENTRY_ACTIVE, ..old(self)@.entries[i] },
                        ),
                        ..old(self)@
                    }
                }),
            },
    {
        let ghost es = self@.entries;
        let mut i: usize = 0;
        proof {
            assert(es.subrange(0, 0) =~= Seq::empty());
        }
        while i < self.entries.len()
            invariant
                i <= self.entries@.len(),
                *self == *old(self),
                self.wf(),
                es == self@.entries,
                key_of(es.subrange(0, i as int), remote_daemon_id, key_id@) is None,
            decreases self.entries.len() - i,
        {
            proof {
                assert(es.subrange(0, i + 1).drop_last() =~= es.subrange(0, i as int));
                assert(es.subrange(0, i + 1).last() == self.entries@[i as int]@);
            }
            let state: u8 = self.entries[i].state;
            if (state == ENTRY_PENDING || state == ENTRY_ACTIVE) && self.entries[i].remote_daemon_id
                == remote_daemon_id && self.entries[i].key_id.holds(key_id) {
                proof {
                    lemma_key_first(es, remote_daemon_id, key_id@, i as int);
                }
                if state == ENTRY_ACTIVE {
                    return true;
                }
                self.entries[i].state = ENTRY_ACTIVE;
                self.header.generation = self.header.generation.wrapping_add(1);
                proof {
                    assert(self@.entries =~= es.update(
                        i as int,
                        EntryView { state: ENTRY_ACTIVE, ..es[i as int] },
                    ));
                }
                return true;
            }
            i += 1;
        }
        proof {
            assert(es.subrange(0, i as int) =~= es);
        }
        false
    }

    /// Drops the keys of a daemon.
    pub fn remove(&mut self, remote_daemon_id: u64)
        requires
            old(self).wf(),
        ensures
            final(self).wf(),
            final(self)@ == (StoreView {
                generation: stepped(
                    old(self)@.generation,
                    old(self)@.entries,
                    remote_daemon_id,
                ),
                entries: without_daemon(old(self)@.entries, remote_daemon_id),
                ..old(self)@
            }),
    {
        let ghost es = self@.entries;
        let mut i: usize = 0;
        proof {
            assert(es.subrange(0, 0) =~= Seq::empty());
        }
        while i < self.entries.len()
            invariant
                i <= self.entries@.len(),
                es == old(self)@.entries,
                self.entries@.len() == es.len(),
                self.message_entries == old(self).message_entries,
                self.header == (QkdHeader { generation: self.header.generation, ..old(self).header }),
                self.header.generation == stepped(
                    old(self)@.generation,
                    es.subrange(0, i as int),
                    remote_daemon_id,
                ),
                forall|k: int|
                    0 <= k < i ==> (#[trigger] self.entries@[k])@ == without_daemon(
                        es,
                        remote_daemon_id,
                    )[k],
                forall|k: int| i <= k < es.len() ==> (#[trigger] self.entries@[k])@ == es[k],
            decreases self.entries.len() - i,
        {
            proof {
                assert(es.subrange(0, i + 1).drop_last() =~= es.subrange(0, i as int));
                assert(self.entries@[i as int]@ == es[i as int]);
            }
            if self.entries[i].state != ENTRY_EMPTY && self.entries[i].remote_daemon_id
                == remote_daemon_id {
                self.entries.set(i, fresh_entry());
                self.header.generation = self.header.generation.wrapping_add(1);
            }
            i += 1;
        }
        proof {
            assert(es.subrange(0, i as int) =~= es);
            assert(self@.entries =~= without_daemon(es, remote_daemon_id));
            assert(self@.messages =~= old(self)@.messages);
        }
    }

    /// The session whose key an entry holds.
    fn copy_entry(&self, entry: &QkdEntry) -> (r: Option<QkdSessionKey>)
        requires
            self.wf(),
        ensures
            session_result(r) == session_of(local_text(self@), entry@),
    {
        if entry.state != ENTRY_PENDING && entry.state != ENTRY_ACTIVE {
            return None;
        }
        let local_sae_id = match self.local_sae_id() {
            Ok(s) => s,
            Err(_) => {
                return None;
            },
        };
        let remote_sae_id = entry.remote_sae_id.text()?;
        let key_id = entry.key_id.text()?;
        Some(
            QkdSessionKey {
                remote_daemon_id: entry.remote_daemon_id,
                local_sae_id,
                remote_sae_id,
                key_id,
                key: entry.key,
                active: entry.state == ENTRY_ACTIVE,
            },
        )
    }

    /// The first readable session that a query looks for.
    pub fn find(&self, query: &SessionQuery<'_>) -> (r: Option<QkdSessionKey>)
        requires
            self.wf(),
        ensures
            session_result(r) == found(query@, local_text(self@), self@.entries),
    {
        let ghost es = self@.entries;
        let mut i: usize = 0;
        proof {
            assert(es.subrange(0, 0) =~= Seq::empty());
        }
        while i < self.entries.len()
            invariant
                i <= self.entries@.len(),
                self.wf(),
                es == self@.entries,
                found(query@, local_text(self@), es.subrange(0, i as int)) is None,
            decreases self.entries.len() - i,
        {
            proof {
                assert(es.subrange(0, i + 1).drop_last() =~= es.subrange(0, i as int));
                assert(es.subrange(0, i + 1).last() == self.entries@[i as int]@);
            }
            let e = &self.entries[i];
            let matching = match query {
                SessionQuery::Daemon { id, require_active } => e.state != ENTRY_EMPTY
                    && !(*require_active && e.state != ENTRY_ACTIVE) && e.remote_daemon_id == *id,
                SessionQuery::Key { key_id, require_active, remote_sae_id } => (e.state
                    == ENTRY_ACTIVE || (!*require_active && e.state == ENTRY_PENDING))
                    && e.key_id.holds(key_id) && (match remote_sae_id {
                    Some(s) => e.remote_sae_id.holds(s),
                    None => true,
                }),
            };
            proof {
                assert(matching == selected(query@, e@));
            }
            if matching {
                let k = self.copy_entry(e);
                if k.is_some() {
                    proof {
                        lemma_found_prefix(query@, local_text(self@), es, i + 1);
                    }
                    return k;
                }
            }
            i += 1;
        }
        proof {
            assert(es.subrange(0, i as int) =~= es);
        }
        None
    }

    /// The session with a daemon.
    pub fn find_for_daemon(&self, remote_daemon_id: u64, require_active: bool) -> (r: Option<
        QkdSessionKey,
    >)
        requires
            self.wf(),
        ensures
            session_result(r) == found(
                QueryView::Daemon { id: remote_daemon_id, require_active },
                local_text(self@),
                self@.entries,
            ),
    {
        self.find(&SessionQuery::Daemon { id: remote_daemon_id, require_active })
    }

    /// The session whose active key this is.
    pub fn find_active_by_key_id(&self, key_id: &str) -> (r: Option<QkdSessionKey>)
        requires
            self.wf(),
        ensures
            session_result(r) == found(
                QueryView::Key { key_id: key_id@, require_active: true, remote_sae_id: None },
                local_text(self@),
                self@.entries,
            ),
    {
        self.find(&SessionQuery::Key { key_id, require_active: true, remote_sae_id: None })
    }

    /// The session whose key this is, while a handshake is under way: the side that
    /// began it keeps its key pending until the peer has shown that it has the key.
    pub fn find_by_key_id_for_tls(&self, key_id: &str) -> (r: Option<QkdSessionKey>)
        requires
            self.wf(),
        ensures
            session_result(r) == found(
                QueryView::Key { key_id: key_id@, require_active: false, remote_sae_id: None },
                local_text(self@),
                self@.entries,
            ),
    {
        self.find(&SessionQuery::Key { key_id, require_active: false, remote_sae_id: None })
    }

    /// The session with an entity whose active key this is.
    pub fn find_active_by_key_id_and_remote_sae(&self, key_id: &str, remote_sae_id: &str) -> (r:
        Option<QkdSessionKey>)
        requires
            self.wf(),
        ensures
            session_result(r) == found(
                QueryView::Key {
                    key_id: key_id@,
                    require_active: true,
                    remote_sae_id: Some(remote_sae_id@),
                },
                local_text(self@),
                self@.entries,
            ),
    {
        self.find(
            &SessionQuery::Key { key_id, require_active: true, remote_sae_id: Some(remote_sae_id) },
        )
    }
}

proof fn lemma_found_first(es: Seq<EntryView>, id: u64, i: int)
    requires
        0 <= i < es.len(),
        entry_of(es.subrange(0, i + 1), id) == Some(i),
    ensures
        entry_of(es, id) == Some(i),
    decreases es.len() - i,
{
    if i + 1 < es.len() {
        lemma_entry_of_prefix(es, id, i + 1);
    } else {
        assert(es.subrange(0, i + 1) =~= es);
    }
}

proof fn lemma_entry_of_prefix(es: Seq<EntryView>, id: u64, n: int)
    requires
        0 <= n <= es.len(),
        entry_of(es.subrange(0, n), id) is Some,
    ensures
        entry_of(es, id) == entry_of(es.subrange(0, n), id),
    decreases es.len(),
{
    if n < es.len() {
        assert(es.drop_last().subrange(0, n) =~= es.subrange(0, n));
        lemma_entry_of_prefix(es.drop_last(), id, n);
    } else {
        assert(es.subrange(0, n) =~= es);
    }
}

proof fn lemma_key_first(es: Seq<EntryView>, id: u64, key_id: Seq<char>, i: int)
    requires
        0 <= i < es.len(),
        key_of(es.subrange(0, i + 1), id, key_id) == Some(i),
    ensures
        key_of(es, id, key_id) == Some(i),
    decreases es.len(),
{
    if i + 1 < es.len() {
        assert(es.drop_last().subrange(0, i + 1) =~= es.subrange(0, i + 1));
        lemma_key_first(es.drop_last(), id, key_id, i);
    } else {
        assert(es.subrange(0, i + 1) =~= es);
    }
}

proof fn lemma_found_prefix(q: QueryView, local: Option<Seq<char>>, es: Seq<EntryView>, n: int)
    requires
        0 <= n <= es.len(),
        found(q, local, es.subrange(0, n)) is Some,
    ensures
        found(q, local, es) == found(q, local, es.subrange(0, n)),
    decreases es.len(),
{
    if n < es.len() {
        assert(es.drop_last().subrange(0, n) =~= es.subrange(0, n));
        lemma_found_prefix(q, local, es.drop_last(), n);
    } else {
        assert(es.subrange(0, n) =~= es);
    }
}

/// Whether no daemon has two keys.
pub open spec fn one_each(entries: Seq<EntryView>) -> bool {
    forall|i: int, j: int|
        0 <= i < j < entries.len() && (#[trigger] entries[i]).state != ENTRY_EMPTY && (
        #[trigger] entries[j]).state != ENTRY_EMPTY ==> entries[i].remote_daemon_id
            != entries[j].remote_daemon_id
}

proof fn lemma_found_only(q: QueryView, local: Option<Seq<char>>, es: Seq<EntryView>, p: int)
    requires
        0 <= p < es.len(),
        forall|k: int| 0 <= k < es.len() && k != p ==> !selected(q, #[trigger] es[k]),
    ensures
        found(q, local, es) == (if selected(q, es[p]) {
            session_of(local, es[p])
        } else {
            None
        }),
    decreases es.len(),
{
    let d = es.drop_last();
    if p == es.len() - 1 {
        assert forall|k: int| 0 <= k < d.len() implies !selected(q, #[trigger] d[k]) by {
            assert(d[k] == es[k]);
        }
        lemma_found_nothing(q, local, d);
    } else {
        assert forall|k: int| 0 <= k < d.len() && k != p implies !selected(
            q,
            #[trigger] d[k],
        ) by {
            assert(d[k] == es[k]);
        }
        lemma_found_only(q, local, d, p);
        assert(!selected(q, es[es.len() - 1]));
    }
}

proof fn lemma_found_nothing(q: QueryView, local: Option<Seq<char>>, es: Seq<EntryView>)
    requires
        forall|k: int| 0 <= k < es.len() ==> !selected(q, #[trigger] es[k]),
    ensures
        found(q, local, es) is None,
    decreases es.len(),
{
    if es.len() > 0 {
        let d = es.drop_last();
        assert forall|k: int| 0 <= k < d.len() implies !selected(q, #[trigger] d[k]) by {
            assert(d[k] == es[k]);
        }
        lemma_found_nothing(q, local, d);
        assert(!selected(q, es[es.len() - 1]));
    }
}

/// Storing a key keeps that no daemon has two.
pub proof fn law_put_keeps_one_each(
    s: StoreView,
    id: u64,
    remote_sae_id: Seq<char>,
    m: KeyView,
    active: bool,
)
    requires
        s.wf(),
        one_each(s.entries),
    ensures
        one_each(with_key(s, id, remote_sae_id, m, active).entries),
{
    let p = place_for(s.entries, id);
    let es = with_key(s, id, remote_sae_id, m, active).entries;
    lemma_entry_of(s.entries, id);
    lemma_first_empty(s.entries);
    assert forall|i: int, j: int|
        0 <= i < j < es.len() && (#[trigger] es[i]).state != ENTRY_EMPTY && (#[trigger] es[j]).state
            != ENTRY_EMPTY implies es[i].remote_daemon_id != es[j].remote_daemon_id by {
        if i != p && j != p {
            assert(es[i] == s.entries[i] && es[j] == s.entries[j]);
        } else if i == p {
            assert(es[j] == s.entries[j]);
        } else {
            assert(es[i] == s.entries[i]);
        }
    }
}

/// A store begins without keys, and neither activating a key nor dropping those of a
/// daemon gives a daemon two.
pub proof fn law_no_daemon_gets_two_keys(
    s: StoreView,
    local_sae_id: Seq<char>,
    pid: u32,
    generation: u64,
    id: u64,
    key_id: Seq<char>,
)
    requires
        one_each(s.entries),
    ensures
        one_each(blank_store(local_sae_id, pid, generation).entries),
        one_each(without_daemon(s.entries, id)),
        key_of(s.entries, id, key_id) matches Some(i) ==> one_each(
            s.entries.update(i, EntryView { state: ENTRY_ACTIVE, ..s.entries[i] }),
        ),
{
    let left = without_daemon(s.entries, id);
    assert forall|i: int, j: int|
        0 <= i < j < left.len() && (#[trigger] left[i]).state != ENTRY_EMPTY && (
        #[trigger] left[j]).state != ENTRY_EMPTY implies left[i].remote_daemon_id
        != left[j].remote_daemon_id by {
        assert(left[i] == s.entries[i] && left[j] == s.entries[j]);
    }
    lemma_key_of_bounds(s.entries, id, key_id);
    if key_of(s.entries, id, key_id) is Some {
        let p = key_of(s.entries, id, key_id)->0;
        let es = s.entries.update(p, EntryView { state: ENTRY_ACTIVE, ..s.entries[p] });
        assert forall|i: int, j: int|
            0 <= i < j < es.len() && (#[trigger] es[i]).state != ENTRY_EMPTY && (
            #[trigger] es[j]).state != ENTRY_EMPTY implies es[i].remote_daemon_id
            != es[j].remote_daemon_id by {
            assert(s.entries[i].state != ENTRY_EMPTY && s.entries[j].state != ENTRY_EMPTY);
        }
    }
}

/// A key that was stored is found under its daemon, with its key and its entities. A
/// pending one is not found by who asks for an active one.
pub proof fn law_stored_key_is_found(
    s: StoreView,
    id: u64,
    remote_sae_id: Seq<char>,
    m: KeyView,
    active: bool,
    require_active: bool,
)
    requires
        s.wf(),
        one_each(s.entries),
        local_text(s) is Some,
        put_fault(remote_sae_id, m.key_id) is None,
    ensures
        found(
            QueryView::Daemon { id, require_active },
            local_text(s),
            with_key(s, id, remote_sae_id, m, active).entries,
        ) == (if require_active && !active {
            None
        } else {
            Some(
                SessionKeyView {
                    remote_daemon_id: id,
                    local_sae_id: local_text(s)->0,
                    remote_sae_id,
                    key_id: m.key_id,
                    key: m.key,
                    active,
                },
            )
        }),
{
    let p = place_for(s.entries, id);
    let es = with_key(s, id, remote_sae_id, m, active).entries;
    let q = QueryView::Daemon { id, require_active };
    lemma_entry_of(s.entries, id);
    lemma_first_empty(s.entries);
    assert forall|k: int| 0 <= k < es.len() && k != p implies !selected(q, #[trigger] es[k]) by {
        assert(es[k] == s.entries[k]);
    }
    lemma_found_only(q, local_text(s), es, p);
    law_label_round_trip(m.key_id, MAX_KEY_ID_LEN as nat);
    law_label_round_trip(remote_sae_id, MAX_SAE_ID_LEN as nat);
}

/// The keys of a daemon that was removed are not found.
pub proof fn law_removed_key_is_gone(s: StoreView, id: u64, require_active: bool)
    ensures
        found(
            QueryView::Daemon { id, require_active },
            local_text(s),
            without_daemon(s.entries, id),
        ) is None,
{
    lemma_found_nothing(
        QueryView::Daemon { id, require_active },
        local_text(s),
        without_daemon(s.entries, id),
    );
}

/// Activating a key again changes nothing and succeeds again.
pub proof fn law_activation_is_idempotent(s: StoreView, id: u64, key_id: Seq<char>, i: int)
    requires
        key_of(s.entries, id, key_id) == Some(i),
    ensures
        ({
            let es = s.entries.update(i, EntryView { state: ENTRY_ACTIVE, ..s.entries[i] });
            key_of(es, id, key_id) == Some(i) && es[i].state == ENTRY_ACTIVE
        }),
{
    lemma_key_of_bounds(s.entries, id, key_id);
    lemma_key_of_updated(s.entries, id, key_id, i);
}

proof fn lemma_key_of_updated(es: Seq<EntryView>, id: u64, key_id: Seq<char>, i: int)
    requires
        0 <= i < es.len(),
        key_of(es, id, key_id) == Some(i),
    ensures
        key_of(
            es.update(i, EntryView { state: ENTRY_ACTIVE, ..es[i] }),
            id,
            key_id,
        ) == Some(i),
    decreases es.len(),
{
    let us = es.update(i, EntryView { state: ENTRY_ACTIVE, ..es[i] });
    lemma_key_of_bounds(es.drop_last(), id, key_id);
    if i == es.len() - 1 {
        assert(us.drop_last() =~= es.drop_last());
    } else {
        assert(us.drop_last() =~= es.drop_last().update(
            i,
            EntryView { state: ENTRY_ACTIVE, ..es.drop_last()[i] },
        ));
        lemma_key_of_updated(es.drop_last(), id, key_id, i);
    }
}

/// The key that a session was activated with is found among the active ones.
pub proof fn law_activated_key_is_found(s: StoreView, id: u64, key_id: Seq<char>, i: int)
    requires
        one_each(s.entries),
        local_text(s) is Some,
        key_of(s.entries, id, key_id) == Some(i),
        s.entries[i].remote_sae_id.text() is Some,
    ensures
        found(
            QueryView::Daemon { id, require_active: true },
            local_text(s),
            s.entries.update(i, EntryView { state: ENTRY_ACTIVE, ..s.entries[i] }),
        ) matches Some(k) && k.key_id == key_id && k.key == s.entries[i].key && k.active,
{
    lemma_key_of_bounds(s.entries, id, key_id);
    let es = s.entries.update(i, EntryView { state: ENTRY_ACTIVE, ..s.entries[i] });
    let q = QueryView::Daemon { id, require_active: true };
    assert forall|k: int| 0 <= k < es.len() && k != i implies !selected(q, #[trigger] es[k]) by {
        assert(es[k] == s.entries[k]);
        if k < i {
            assert(s.entries[k].state == ENTRY_EMPTY || s.entries[k].remote_daemon_id
                != s.entries[i].remote_daemon_id);
        } else {
            assert(s.entries[i].state == ENTRY_EMPTY || s.entries[k].state == ENTRY_EMPTY
                || s.entries[i].remote_daemon_id != s.entries[k].remote_daemon_id);
        }
    }
    lemma_found_only(q, local_text(s), es, i);
}

/// A pending key that was stored is the first of its daemon that has its identifier.
pub proof fn lemma_stored_key_of(s: StoreView, id: u64, remote_sae_id: Seq<char>, m: KeyView)
    requires
        s.wf(),
        one_each(s.entries),
        put_fault(remote_sae_id, m.key_id) is None,
    ensures
        key_of(with_key(s, id, remote_sae_id, m, false).entries, id, m.key_id) == Some(
            place_for(s.entries, id),
        ),
        0 <= place_for(s.entries, id) < s.entries.len(),
{
    let p = place_for(s.entries, id);
    let es = with_key(s, id, remote_sae_id, m, false).entries;
    lemma_entry_of(s.entries, id);
    lemma_first_empty(s.entries);
    law_label_round_trip(m.key_id, MAX_KEY_ID_LEN as nat);
    assert forall|k: int| 0 <= k < p implies !holds_key(#[trigger] es[k], id, m.key_id) by {
        assert(es[k] == s.entries[k]);
    }
    lemma_key_of_only(es, id, m.key_id, p);
}

proof fn lemma_key_of_only(es: Seq<EntryView>, id: u64, key_id: Seq<char>, p: int)
    requires
        0 <= p < es.len(),
        holds_key(es[p], id, key_id),
        forall|k: int| 0 <= k < p ==> !holds_key(#[trigger] es[k], id, key_id),
    ensures
        key_of(es, id, key_id) == Some(p),
    decreases es.len(),
{
    let d = es.drop_last();
    if p == es.len() - 1 {
        lemma_key_of_bounds(d, id, key_id);
        if let Some(i) = key_of(d, id, key_id) {
            assert(d[i] == es[i]);
        }
    } else {
        assert forall|k: int| 0 <= k < p implies !holds_key(#[trigger] d[k], id, key_id) by {
            assert(d[k] == es[k]);
        }
        lemma_key_of_only(d, id, key_id, p);
    }
}

/// A text that fits a field stands at its beginning, byte by byte, with nothing but zeros
/// behind it, and the field tells how many bytes it has.
pub proof fn law_label_layout(s: Seq<char>, n: nat)
    requires
        encode_utf8(s).len() <= n,
    ensures
        label_of(s, n).len == encode_utf8(s).len(),
        label_of(s, n).bytes.len() == n,
        label_of(s, n).bytes.subrange(0, encode_utf8(s).len() as int) == encode_utf8(s),
        forall|k: int|
            encode_utf8(s).len() <= k < n ==> (#[trigger] label_of(s, n).bytes[k]) == 0,
{
    assert(label_of(s, n).bytes.subrange(0, encode_utf8(s).len() as int) =~= encode_utf8(s));
}

/// A field tells a text exactly if its length is neither zero nor beyond its bytes and
/// that many bytes are a text.
pub proof fn law_label_tells_exactly(l: LabelView)
    ensures
        l.text() is Some <==> 1 <= l.len <= l.bytes.len() && valid_utf8(
            l.bytes.subrange(0, l.len as int),
        ),
        l.text() matches Some(s) ==> s == decode_utf8(l.bytes.subrange(0, l.len as int)),
{
}

/// A store without keys holds no key of any session or message: each of its 32 and 4096
/// places is empty and zero throughout. It bears the mark, and tells who it is for.
pub proof fn law_fresh_store(local_sae_id: Seq<char>, pid: u32, generation: u64)
    requires
        keys::identifier_ok(local_sae_id, 128),
    ensures
        ({
            let s = blank_store(local_sae_id, pid, generation);
            &&& s.magic == 0x4158_514c
            &&& s.daemon_pid == pid
            &&& s.generation == generation
            &&& local_text(s) == Some(local_sae_id)
            &&& s.entries.len() == 32
            &&& s.messages.len() == 4096
            &&& forall|i: int|
                0 <= i < 32 ==> (#[trigger] s.entries[i]).state == 0 && s.entries[i].key.len() == 32
                    && s.entries[i].key_id.text() is None && s.entries[i].remote_sae_id.text()
                    is None
            &&& forall|i: int, j: int|
                #![trigger s.entries[i].key[j]]
                0 <= i < 32 && 0 <= j < 32 ==> s.entries[i].key[j] == 0
            &&& forall|i: int|
                0 <= i < 4096 ==> (#[trigger] s.messages[i]).state == 0 && s.messages[i].key.len()
                    == 32 && s.messages[i].writer_pid == 0 && s.messages[i].key_id.text() is None
                    && s.messages[i].sender_sae_id.text() is None
            &&& forall|i: int, j: int|
                #![trigger s.messages[i].key[j]]
                0 <= i < 4096 && 0 <= j < 32 ==> s.messages[i].key[j] == 0
        }),
{
    law_label_round_trip(local_sae_id, 128);
}

/// Generations count up by one and start over behind the last that eight bytes can hold.
pub proof fn law_generations_count_up(g: u64)
    ensures
        next_generation(g) as int == (g + 1) % 0x1_0000_0000_0000_0000,
        next_generation(g) != g,
{
}

/// A segment has room for its header, 32 session keys and 4096 message keys, is made of
/// whole pages, and has no page more than that takes.
pub proof fn law_store_is_in_whole_pages(header: nat, entry: nat, message: nat)
    ensures
        ({
            let size = store_size(header, entry, message);
            let used = header + 32 * entry + 4096 * message;
            &&& size % 4096 == 0
            &&& used <= size < used + 4096
        }),
{
}

/// Permissions leave out everyone but the owner exactly if none of the six bits of the
/// group and of others is set.
pub proof fn law_owner_only_exactly(mode: u32)
    ensures
        owner_only(mode) <==> mode & 0o77 == 0,
{
    assert(mode & 0o77 == mode % 64) by (bit_vector);
}

/// A session key goes over the daemon's old one where it has one, else to the first empty
/// place, else to the first place of all.
pub proof fn law_place_of_a_session_key(entries: Seq<EntryView>, id: u64, i: int)
    requires
        0 <= i < entries.len(),
    ensures
        entries[i].state != 0 && entries[i].remote_daemon_id == id && (forall|k: int|
            0 <= k < i ==> (#[trigger] entries[k]).state == 0 || entries[k].remote_daemon_id != id)
            ==> place_for(entries, id) == i,
        entries[i].state == 0 && (forall|k: int|
            0 <= k < i ==> (#[trigger] entries[k]).state != 0) && (forall|k: int|
            0 <= k < entries.len() ==> (#[trigger] entries[k]).state == 0
                || entries[k].remote_daemon_id != id) ==> place_for(entries, id) == i,
        (forall|k: int|
            0 <= k < entries.len() ==> (#[trigger] entries[k]).state != 0
                && entries[k].remote_daemon_id != id) ==> place_for(entries, id) == 0,
{
    lemma_entry_of(entries, id);
    lemma_first_empty(entries);
}

/// A stored key is the daemon's, with its key, its identifier and the entity at the other
/// end; it is active exactly if it was stored as active, else it waits. Nothing else in
/// the store changes but the generation, which counts up.
pub proof fn law_stored_key_keeps_its_parts(
    s: StoreView,
    id: u64,
    remote_sae_id: Seq<char>,
    m: KeyView,
    active: bool,
)
    requires
        s.wf(),
        put_fault(remote_sae_id, m.key_id) is None,
    ensures
        ({
            let t = with_key(s, id, remote_sae_id, m, active);
            let p = place_for(s.entries, id);
            &&& 0 <= p < s.entries.len()
            &&& t.entries.len() == s.entries.len()
            &&& t.entries[p].state == if active { 2u8 } else { 1u8 }
            &&& t.entries[p].remote_daemon_id == id
            &&& t.entries[p].key == m.key
            &&& t.entries[p].key_id.text() == Some(m.key_id)
            &&& t.entries[p].remote_sae_id.text() == Some(remote_sae_id)
            &&& forall|k: int|
                0 <= k < s.entries.len() && k != p ==> (#[trigger] t.entries[k]) == s.entries[k]
            &&& t.messages == s.messages
            &&& t.magic == s.magic
            &&& t.daemon_pid == s.daemon_pid
            &&& t.local_sae_id == s.local_sae_id
            &&& t.generation as int == (s.generation + 1) % 0x1_0000_0000_0000_0000
        }),
{
    lemma_entry_of(s.entries, id);
    lemma_first_empty(s.entries);
    law_label_round_trip(m.key_id, 192);
    law_label_round_trip(remote_sae_id, 128);
}

/// Storing a daemon's key leaves the keys of other daemons as they are, as long as the
/// daemon has a key or a place is empty.
pub proof fn law_other_sessions_keep_their_keys(
    s: StoreView,
    id: u64,
    remote_sae_id: Seq<char>,
    m: KeyView,
    active: bool,
    k: int,
)
    requires
        s.wf(),
        0 <= k < s.entries.len(),
        s.entries[k].state != 0,
        s.entries[k].remote_daemon_id != id,
        exists|i: int|
            0 <= i < s.entries.len() && ((#[trigger] s.entries[i]).state == 0
                || s.entries[i].remote_daemon_id == id),
    ensures
        with_key(s, id, remote_sae_id, m, active).entries[k] == s.entries[k],
{
    lemma_entry_of(s.entries, id);
    lemma_first_empty(s.entries);
    let i = choose|i: int|
        0 <= i < s.entries.len() && ((#[trigger] s.entries[i]).state == 0
            || s.entries[i].remote_daemon_id == id);
    assert(s.entries[i].state == 0 || s.entries[i].remote_daemon_id == id);
    if entry_of(s.entries, id) is None {
        assert(s.entries[i].state == 0);
        assert(first_empty(s.entries) is Some);
    }
}

/// A session key is stored exactly if the other entity's identifier has one to 127 bytes
/// and the key's one to 191, all of them printable or beyond ASCII.
pub proof fn law_session_key_is_stored_exactly(remote_sae_id: Seq<char>, key_id: Seq<char>)
    ensures
        put_fault(remote_sae_id, key_id) is None <==> keys::identifier_ok(remote_sae_id, 128)
            && keys::identifier_ok(key_id, 192),
{
    keys::law_identifier_is_accepted_exactly("remote SAE ID"@, remote_sae_id, 128);
    keys::law_identifier_is_accepted_exactly("QKD key_ID"@, key_id, 192);
}

/// The keys of a daemon are dropped, and theirs alone: where one stood nothing is left,
/// all else stays in its place, and the generation counts up once for each.
pub proof fn law_keys_are_dropped_exactly(g: u64, entries: Seq<EntryView>, id: u64)
    ensures
        without_daemon(entries, id).len() == entries.len(),
        forall|k: int|
            #![trigger without_daemon(entries, id)[k]]
            0 <= k < entries.len() && entries[k].state != 0 && entries[k].remote_daemon_id == id
                ==> without_daemon(entries, id)[k].state == 0 && without_daemon(
                entries,
                id,
            )[k].key_id.text() is None && forall|j: int|
                0 <= j < 32 ==> without_daemon(entries, id)[k].key[j] == 0,
        forall|k: int|
            #![trigger without_daemon(entries, id)[k]]
            0 <= k < entries.len() && (entries[k].state == 0 || entries[k].remote_daemon_id != id)
                ==> without_daemon(entries, id)[k] == entries[k],
        stepped(g, entries, id) as int == (g + entries.filter(
            |e: EntryView| e.state != 0 && e.remote_daemon_id == id,
        ).len()) % 0x1_0000_0000_0000_0000,
    decreases entries.len(),
{
    let mine = |e: EntryView| e.state != 0 && e.remote_daemon_id == id;
    reveal(Seq::filter);
    if entries.len() > 0 {
        law_keys_are_dropped_exactly(g, entries.drop_last(), id);
        let before = stepped(g, entries.drop_last(), id) as int;
        let n = entries.drop_last().filter(mine).len();
        assert(entries.filter(mine).len() == n + if mine(entries.last()) {
            1int
        } else {
            0
        });
        law_generations_count_up(before as u64);
        assert((before + 1) % 0x1_0000_0000_0000_0000 == (g + n + 1) % 0x1_0000_0000_0000_0000)
            by (nonlinear_arith)
            requires
                before == (g + n) % 0x1_0000_0000_0000_0000,
        ;
    }
}

/// Whether an entry holds a key, waiting or active, and tells its name and the entity at
/// the other end.
pub open spec fn readable(e: EntryView) -> bool {
    &&& e.state == 1 || e.state == 2
    &&& e.key_id.text() is Some
    &&& e.remote_sae_id.text() is Some
}

/// Whether a session shows what an entry holds.
pub open spec fn shows(local: Option<Seq<char>>, e: EntryView, k: SessionKeyView) -> bool {
    &&& readable(e)
    &&& local == Some(k.local_sae_id)
    &&& e.remote_sae_id.text() == Some(k.remote_sae_id)
    &&& e.key_id.text() == Some(k.key_id)
    &&& e.remote_daemon_id == k.remote_daemon_id
    &&& e.key == k.key
    &&& k.active <==> e.state == 2
}

proof fn lemma_found_exactly(q: QueryView, local: Option<Seq<char>>, es: Seq<EntryView>)
    ensures
        match found(q, local, es) {
            Some(k) => exists|i: int|
                0 <= i < es.len() && selected(q, #[trigger] es[i]) && shows(local, es[i], k) && (
                forall|j: int|
                    0 <= j < i ==> !(selected(q, #[trigger] es[j]) && readable(es[j]))),
            None => local is Some ==> forall|j: int|
                0 <= j < es.len() ==> !(selected(q, #[trigger] es[j]) && readable(es[j])),
        },
    decreases es.len(),
{
    if es.len() > 0 {
        let d = es.drop_last();
        lemma_found_exactly(q, local, d);
        assert forall|j: int| 0 <= j < d.len() implies #[trigger] es[j] == d[j] by {}
        if let Some(k) = found(q, local, d) {
            let i = choose|i: int|
                0 <= i < d.len() && selected(q, #[trigger] d[i]) && shows(local, d[i], k) && (
                forall|j: int| 0 <= j < i ==> !(selected(q, #[trigger] d[j]) && readable(d[j])));
            assert(selected(q, es[i]) && shows(local, es[i], k));
            assert forall|j: int| 0 <= j < i implies !(selected(q, #[trigger] es[j]) && readable(
                es[j],
            )) by {
                assert(d[j] == es[j]);
            }
        } else if let Some(k) = found(q, local, es) {
            let i = es.len() - 1;
            assert(selected(q, es[i]) && shows(local, es[i], k));
            assert forall|j: int| 0 <= j < i implies !(selected(q, #[trigger] es[j]) && readable(
                es[j],
            )) by {
                assert(d[j] == es[j]);
            }
        }
    }
}

/// Whether an entry holds a readable key of this daemon, an active one where that is asked.
pub open spec fn of_daemon(e: EntryView, id: u64, require_active: bool) -> bool {
    readable(e) && e.remote_daemon_id == id && (require_active ==> e.state == 2)
}

/// The session that is found for a daemon is that of the first readable key of that very
/// daemon, an active one where that is asked. None is found exactly if there is no such
/// key.
pub proof fn law_session_of_a_daemon_exactly(
    local: Option<Seq<char>>,
    es: Seq<EntryView>,
    id: u64,
    require_active: bool,
)
    ensures
        match found(QueryView::Daemon { id, require_active }, local, es) {
            Some(k) => exists|i: int|
                0 <= i < es.len() && of_daemon(#[trigger] es[i], id, require_active) && shows(
                    local,
                    es[i],
                    k,
                ) && (forall|j: int|
                    0 <= j < i ==> !of_daemon(#[trigger] es[j], id, require_active)),
            None => local is Some ==> forall|j: int|
                0 <= j < es.len() ==> !of_daemon(#[trigger] es[j], id, require_active),
        },
{
    let q = QueryView::Daemon { id, require_active };
    lemma_found_exactly(q, local, es);
    assert forall|j: int| 0 <= j < es.len() implies ((selected(q, #[trigger] es[j]) && readable(
        es[j],
    )) <==> of_daemon(es[j], id, require_active)) by {}
    if let Some(k) = found(q, local, es) {
        let i = choose|i: int|
            0 <= i < es.len() && selected(q, #[trigger] es[i]) && shows(local, es[i], k) && (
            forall|j: int| 0 <= j < i ==> !(selected(q, #[trigger] es[j]) && readable(es[j])));
        assert(of_daemon(es[i], id, require_active));
        assert forall|j: int| 0 <= j < i implies !of_daemon(#[trigger] es[j], id, require_active) by {
            assert(!(selected(q, es[j]) && readable(es[j])));
        }
    }
}

/// Whether an entry holds the readable key of this name, an active one where that is
/// asked, with this entity at the other end where one is asked for.
pub open spec fn of_key(
    e: EntryView,
    key_id: Seq<char>,
    require_active: bool,
    remote_sae_id: Option<Seq<char>>,
) -> bool {
    &&& readable(e)
    &&& e.key_id.text() == Some(key_id)
    &&& require_active ==> e.state == 2
    &&& remote_sae_id matches Some(sae) ==> e.remote_sae_id.text() == Some(sae)
}

/// The session that is found for a key is the first readable one of that very key, an
/// active one where that is asked, with the entity at the other end that is asked for.
/// None is found exactly if there is no such key.
pub proof fn law_session_of_a_key_exactly(
    local: Option<Seq<char>>,
    es: Seq<EntryView>,
    key_id: Seq<char>,
    require_active: bool,
    remote_sae_id: Option<Seq<char>>,
)
    ensures
        match found(QueryView::Key { key_id, require_active, remote_sae_id }, local, es) {
            Some(k) => exists|i: int|
                0 <= i < es.len() && of_key(
                    #[trigger] es[i],
                    key_id,
                    require_active,
                    remote_sae_id,
                ) && shows(local, es[i], k) && (forall|j: int|
                    0 <= j < i ==> !of_key(
                        #[trigger] es[j],
                        key_id,
                        require_active,
                        remote_sae_id,
                    )),
            None => local is Some ==> forall|j: int|
                0 <= j < es.len() ==> !of_key(
                    #[trigger] es[j],
                    key_id,
                    require_active,
                    remote_sae_id,
                ),
        },
{
    let q = QueryView::Key { key_id, require_active, remote_sae_id };
    lemma_found_exactly(q, local, es);
    assert forall|j: int| 0 <= j < es.len() implies ((selected(q, #[trigger] es[j]) && readable(
        es[j],
    )) <==> of_key(es[j], key_id, require_active, remote_sae_id)) by {}
    if let Some(k) = found(q, local, es) {
        let i = choose|i: int|
            0 <= i < es.len() && selected(q, #[trigger] es[i]) && shows(local, es[i], k) && (
            forall|j: int| 0 <= j < i ==> !(selected(q, #[trigger] es[j]) && readable(es[j])));
        assert(of_key(es[i], key_id, require_active, remote_sae_id));
        assert forall|j: int| 0 <= j < i implies !of_key(
            #[trigger] es[j],
            key_id,
            require_active,
            remote_sae_id,
        ) by {
            assert(!(selected(q, es[j]) && readable(es[j])));
        }
    }
}

/// The key of a daemon that can be made active is the first that waits or is active, is
/// that very daemon's, and has that name. There is none exactly if no entry is such a one.
pub proof fn law_key_to_activate_exactly(es: Seq<EntryView>, id: u64, key_id: Seq<char>)
    ensures
        match key_of(es, id, key_id) {
            Some(i) => {
                &&& 0 <= i < es.len()
                &&& es[i].state == 1 || es[i].state == 2
                &&& es[i].remote_daemon_id == id
                &&& es[i].key_id.text() == Some(key_id)
                &&& forall|j: int|
                    0 <= j < i && ((#[trigger] es[j]).state == 1 || es[j].state == 2)
                        && es[j].remote_daemon_id == id ==> es[j].key_id.text() != Some(key_id)
            },
            None => forall|j: int|
                0 <= j < es.len() && ((#[trigger] es[j]).state == 1 || es[j].state == 2)
                    && es[j].remote_daemon_id == id ==> es[j].key_id.text() != Some(key_id),
        },
    decreases es.len(),
{
    if es.len() > 0 {
        let d = es.drop_last();
        law_key_to_activate_exactly(d, id, key_id);
        assert forall|j: int| 0 <= j < d.len() implies #[trigger] es[j] == d[j] by {}
    }
}

/// An identifier of the local entity is told exactly if it has one to 127 bytes that are
/// a text.
pub proof fn law_local_entity_exactly(s: StoreView)
    requires
        s.wf(),
    ensures
        local_text(s) is Some <==> 1 <= s.local_sae_id.len <= 127 && valid_utf8(
            s.local_sae_id.bytes.subrange(0, s.local_sae_id.len as int),
        ),
{
}

} // verus!
