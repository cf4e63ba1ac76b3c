//! The decision core of the filesystem event monitor: classification of raw
//! mutation events, the monitored-process test, editor-indirection path
//! resolution, and the enforcement decision for each event.
//!
//! All filesystem reads and writes stay outside: the caller feeds each raw
//! event together with the bytes currently at its effective path, and
//! performs the returned actions.

use vstd::prelude::*;
use vstd::string::*;
use crate::path::GuardPath;
use crate::path::clone_string_vec;
use crate::strutil::{contains_seq, str_contains, str_ends_with, trim_char_prefix,
    trim_char_suffix, trim_suffix_rep, str_trim_char_prefix, str_trim_char_suffix,
    str_trim_suffix_rep};
use crate::vault::{BackupVault, vault_views, vault_upsert, vault_lookup};
use crate::stash::{StashManager, ProcessInfo, StashEntryView, stash_views, fnv1a};

verus! {

/// What to do with a violation: revert the file, archive the change without
/// reverting, or only notify.
#[derive(Clone, Copy, Debug, PartialEq, Eq, Structural)]
pub enum BlockMode {
    /// Immediately restore the file from its backup.
    Revert,
    /// Only emit events; touch nothing.
    NotifyOnly,
    /// Archive the denied change and leave the filesystem as the actor left
    /// it.
    StashOnly,
}

/// The monitor's operator-tunable configuration.
pub struct MonitorConfig {
    pub enabled: bool,
    pub block_timeout_ms: u64,
    pub auto_stash: bool,
    pub monitored_processes: Vec<String>,
    pub block_mode: BlockMode,
    pub verbose: bool,
}

impl Default for MonitorConfig {
    /// Guarding disabled, 30 s timeout, auto-stash on, the usual terminal
    /// editors monitored, revert mode, quiet.
    fn default() -> (r: Self)
        ensures
            !r.enabled,
            r.block_timeout_ms == 30000,
            r.auto_stash,
            r.monitored_processes.deep_view() =~= seq!["vim"@, "nvim"@],
            r.block_mode is Revert,
            !r.verbose,
    {
        let mut procs: Vec<String> = Vec::new();
        crate::strutil::push_string(&mut procs, "vim".to_owned());
        crate::strutil::push_string(&mut procs, "nvim".to_owned());
        assert(procs.deep_view() =~= seq!["vim"@, "nvim"@]);
        MonitorConfig {
            enabled: false,
            block_timeout_ms: 30000,
            auto_stash: true,
            monitored_processes: procs,
            block_mode: BlockMode::Revert,
            verbose: false,
        }
    }
}

/// One raw mutation notification from the OS-level event source.
pub struct RawFsEvent {
    pub process_name: String,
    pub pid: u32,
    pub operation: String,
    pub path: GuardPath,
}

/// An event the guardian reports to its consumer.
pub enum GuardianEvent {
    /// A monitored process wrote to a locked path.
    BlockedWrite { path: GuardPath, process: String, pid: u32, timestamp: u64 },
    /// A monitored process deleted a locked path.
    BlockedDelete { path: GuardPath, process: String, pid: u32, timestamp: u64 },
    /// Denied content was archived.
    StashedChange { stash_id: u64, path: GuardPath, operation: String },
    /// A block timeout ran out.
    TimeoutExpired { path: GuardPath },
    /// The monitor started.
    MonitorStarted,
    /// The monitor stopped.
    MonitorStopped,
    /// The monitor failed; the reason is attached.
    MonitorError(String),
}

/// A filesystem mutation the caller must perform.
pub enum FsAction {
    /// Overwrite the file at `path` with `content`.
    RestoreFile { path: GuardPath, content: Vec<u8> },
}

/// What one event produced: events to forward and actions to perform, in
/// order.
pub struct EventOutcome {
    pub events: Vec<GuardianEvent>,
    pub actions: Vec<FsAction>,
}

/// The operation writes or creates: its keyword names a write, rename,
/// create, truncate or permission change.
pub open spec fn spec_is_write_like(op: Seq<char>) -> bool {
    contains_seq(op, "write"@) || contains_seq(op, "WrData"@) || contains_seq(op, "WrMeta"@)
        || contains_seq(op, "rename"@) || contains_seq(op, "create"@) || contains_seq(
        op,
        "truncate"@,
    ) || contains_seq(op, "chmod_extended"@)
}

/// The operation removes: unlink or rmdir.
pub open spec fn spec_is_delete_like(op: Seq<char>) -> bool {
    contains_seq(op, "unlink"@) || contains_seq(op, "rmdir"@)
}

/// The operation settles new content worth refreshing a backup for: any
/// write-like operation, and a close, which lands the content of a
/// just-finished write.
pub open spec fn spec_is_refresh_op(op: Seq<char>) -> bool {
    spec_is_write_like(op) || contains_seq(op, "close"@)
}

/// The process matches the monitored list, or the list is empty.
pub open spec fn spec_is_monitored(procs: Seq<Seq<char>>, name: Seq<char>) -> bool {
    procs.len() == 0 || exists|i: int| 0 <= i < procs.len() && contains_seq(name, procs[i])
}

/// Some locked path is an ancestor of `p` or `p` itself.
pub open spec fn spec_path_locked(locked: Seq<GuardPath>, p: Seq<Seq<char>>) -> bool {
    exists|i: int| 0 <= i < locked.len() && (#[trigger] locked[i]@).is_prefix_of(p)
}

/// Classifies an operation keyword as write-like.
pub fn is_write_like(operation: &str) -> (r: bool)
    ensures
        r == spec_is_write_like(operation@),
{
    str_contains(operation, "write") || str_contains(operation, "WrData") || str_contains(
        operation,
        "WrMeta",
    ) || str_contains(operation, "rename") || str_contains(operation, "create") || str_contains(
        operation,
        "truncate",
    ) || str_contains(operation, "chmod_extended")
}

/// Classifies an operation keyword as delete-like.
pub fn is_delete_like(operation: &str) -> (r: bool)
    ensures
        r == spec_is_delete_like(operation@),
{
    str_contains(operation, "unlink") || str_contains(operation, "rmdir")
}

/// Whether the operation mutates at all: write-like or delete-like.
pub fn is_write_or_delete_op(operation: &str) -> (r: bool)
    ensures
        r == (spec_is_write_like(operation@) || spec_is_delete_like(operation@)),
{
    is_write_like(operation) || is_delete_like(operation)
}

/// Whether the operation should refresh the backup of its path.
pub fn is_refresh_op(operation: &str) -> (r: bool)
    ensures
        r == spec_is_refresh_op(operation@),
{
    is_write_like(operation) || str_contains(operation, "close")
}

/// Whether the process is monitored: the list is empty, or some listed name
/// occurs in the process name.
pub fn is_monitored_process(monitored_processes: &Vec<String>, process_name: &str) -> (r: bool)
    ensures
        r == spec_is_monitored(monitored_processes.deep_view(), process_name@),
{
    let ghost mv = monitored_processes.deep_view();
    if monitored_processes.len() == 0 {
        return true;
    }
    let mut i: usize = 0;
    while i < monitored_processes.len()
        invariant
            i <= monitored_processes.len(),
            monitored_processes.deep_view() == mv,
            mv.len() == monitored_processes.len(),
            forall|j: int| 0 <= j < i ==> !contains_seq(process_name@, mv[j]),
        decreases monitored_processes.len() - i,
    {
        let p: &String = &monitored_processes[i];
        assert(p@ == mv[i as int]);
        if str_contains(process_name, p.as_str()) {
            return true;
        }
        i += 1;
    }
    false
}

/// Whether some path of `locked_paths` covers `path` (is the path itself or
/// an ancestor of it).
pub fn is_path_locked(path: &GuardPath, locked_paths: &Vec<GuardPath>) -> (r: bool)
    ensures
        r == spec_path_locked(locked_paths@, path@),
{
    let mut i: usize = 0;
    while i < locked_paths.len()
        invariant
            i <= locked_paths@.len(),
            forall|j: int| 0 <= j < i ==> !(#[trigger] locked_paths@[j]@).is_prefix_of(path@),
        decreases locked_paths@.len() - i,
    {
        if path.starts_with(&locked_paths[i]) {
            return true;
        }
        i += 1;
    }
    false
}

/// The real file behind a vim swap-file name: leading dots dropped, then all
/// `.swp`, `.swx` and `.swo` suffixes.
pub open spec fn swap_target(name: Seq<char>) -> Seq<char> {
    trim_suffix_rep(
        trim_suffix_rep(trim_suffix_rep(trim_char_prefix(name, '.'), ".swp"@), ".swx"@),
        ".swo"@,
    )
}

/// The file name looks like a vim swap file: a leading dot and a swap
/// extension.
pub open spec fn is_vim_swap_name(name: Seq<char>) -> bool {
    name.len() > 0 && name[0] == '.' && (".swp"@.is_suffix_of(name) || ".swx"@.is_suffix_of(name)
        || ".swo"@.is_suffix_of(name))
}

/// The effective path an event is really about: vim swap files and `name~`
/// backups are mapped back to the file being edited; everything else is
/// taken as is.
pub open spec fn resolve_effective(process: Seq<char>, path: Seq<Seq<char>>) -> Seq<Seq<char>> {
    if !contains_seq(process, "vim"@) || path.len() == 0 {
        path
    } else {
        let name = path.last();
        if is_vim_swap_name(name) {
            path.drop_last().push(swap_target(name))
        } else if name.len() > 0 && name.last() == '~' {
            path.drop_last().push(trim_char_suffix(name, '~'))
        } else {
            path
        }
    }
}

/// Resolves editor indirection: maps vim swap files and `name~` backups back
/// to the real target file.
pub fn resolve_effective_path(process_name: &str, path: &GuardPath) -> (r: GuardPath)
    ensures
        r@ == resolve_effective(process_name@, path@),
{
    if !str_contains(process_name, "vim") || path.depth() == 0 {
        return path.clone();
    }
    let name: &String = match path.file_name() {
        Some(n) => n,
        None => {
            return path.clone();
        },
    };
    assert(name@ == path@.last());
    let nlen = name.as_str().unicode_len();
    let starts_dot = nlen > 0 && name.as_str().get_char(0) == '.';
    let swap_ext = str_ends_with(name.as_str(), ".swp") || str_ends_with(name.as_str(), ".swx")
        || str_ends_with(name.as_str(), ".swo");
    if starts_dot && swap_ext {
        proof {
            reveal_strlit(".swp");
            reveal_strlit(".swx");
            reveal_strlit(".swo");
        }
        let t1 = str_trim_char_prefix(name.as_str(), '.');
        let t2 = str_trim_suffix_rep(t1.as_str(), ".swp");
        let t3 = str_trim_suffix_rep(t2.as_str(), ".swx");
        let t4 = str_trim_suffix_rep(t3.as_str(), ".swo");
        assert(t4@ == swap_target(name@));
        let mut segs = clone_string_vec(&path.segs);
        segs.pop();
        assert(segs.deep_view() =~= path@.drop_last());
        crate::strutil::push_string(&mut segs, t4);
        let r = GuardPath::from_segs(segs);
        assert(r@ =~= path@.drop_last().push(swap_target(path@.last())));
        r
    } else if nlen > 0 && name.as_str().get_char(nlen - 1) == '~' {
        assert(name@.last() == '~');
        let t = str_trim_char_suffix(name.as_str(), '~');
        let mut segs = clone_string_vec(&path.segs);
        segs.pop();
        assert(segs.deep_view() =~= path@.drop_last());
        crate::strutil::push_string(&mut segs, t);
        let r = GuardPath::from_segs(segs);
        assert(r@ =~= path@.drop_last().push(trim_char_suffix(path@.last(), '~')));
        r
    } else {
        assert(!is_vim_swap_name(name@));
        assert(!(name@.len() > 0 && name@.last() == '~'));
        path.clone()
    }
}

/// Byte-for-byte equality of two buffers.
pub fn bytes_eq(a: &Vec<u8>, b: &Vec<u8>) -> (r: bool)
    ensures
        r == (a@ == b@),
{
    if a.len() != b.len() {
        return false;
    }
    let mut i: usize = 0;
    while i < a.len()
        invariant
            i <= a@.len(),
            a@.len() == b@.len(),
            forall|j: int| 0 <= j < i ==> a@[j] == b@[j],
        decreases a@.len() - i,
    {
        if a[i] != b[i] {
            return false;
        }
        i += 1;
    }
    assert(a@ =~= b@);
    true
}

/// The decision core of the guardian: configuration, the locked-path set,
/// the backup vault and the stash archive. It consumes classified events and
/// decides what to emit and what to write, without touching the filesystem
/// itself.
pub struct GuardianCore {
    pub config: MonitorConfig,
    pub locked_paths: Vec<GuardPath>,
    pub backups: BackupVault,
    pub stash_manager: StashManager,
}

/// All stash ids leave room for a successor.
pub open spec fn stash_ids_bounded(s: StashManager) -> bool {
    forall|i: int|
        0 <= i < s.entries@.len() ==> (#[trigger] s.entries@[i].id) < 0xffffffffffffffffu64
}

impl GuardianCore {
    /// A fresh core with no locked paths, no backups and an empty archive.
    pub fn new(config: MonitorConfig) -> (r: Self)
        ensures
            r.config == config,
            r.locked_paths@.len() == 0,
            vault_views(r.backups.entries@) =~= Seq::<(Seq<Seq<char>>, Seq<u8>)>::empty(),
            stash_views(r.stash_manager.entries@) =~= Seq::<StashEntryView>::empty(),
    {
        GuardianCore {
            config,
            locked_paths: Vec::new(),
            backups: BackupVault::new(),
            stash_manager: StashManager::new(),
        }
    }

    /// Replaces the set of locked paths the monitor enforces.
    pub fn update_locked_paths(&mut self, paths: Vec<GuardPath>)
        ensures
            final(self).locked_paths == paths,
            final(self).config == old(self).config,
            final(self).backups == old(self).backups,
            final(self).stash_manager == old(self).stash_manager,
    {
        self.locked_paths = paths;
    }

    /// Replaces the list of monitored process names.
    pub fn update_monitored_processes(&mut self, processes: Vec<String>)
        ensures
            final(self).config.monitored_processes == processes,
            final(self).config.enabled == old(self).config.enabled,
            final(self).config.block_timeout_ms == old(self).config.block_timeout_ms,
            final(self).config.auto_stash == old(self).config.auto_stash,
            final(self).config.block_mode == old(self).config.block_mode,
            final(self).config.verbose == old(self).config.verbose,
            final(self).locked_paths == old(self).locked_paths,
            final(self).backups == old(self).backups,
            final(self).stash_manager == old(self).stash_manager,
    {
        self.config.monitored_processes = processes;
    }

    /// Seeds or refreshes the backup of one file with the bytes the caller
    /// read from disk.
    pub fn pre_backup_file(&mut self, path: GuardPath, content: Vec<u8>)
        ensures
            vault_views(final(self).backups.entries@) == vault_upsert(
                vault_views(old(self).backups.entries@),
                path@,
                content@,
            ),
            final(self).config == old(self).config,
            final(self).locked_paths == old(self).locked_paths,
            final(self).stash_manager == old(self).stash_manager,
    {
        self.backups.insert(path, content);
    }

    /// Handles one raw filesystem event, in arrival order.
    ///
    /// `current_content` holds the bytes now at the event's effective path
    /// (`None` when the file cannot be read); the caller reads them after a
    /// settle delay and performs the returned actions afterwards.
    ///
    /// A non-monitored actor's settled write-like operation (a close
    /// included) refreshes the backup baseline and emits nothing. A monitored actor touching an unlocked path is
    /// ignored. A locked write emits `BlockedWrite` for the effective path
    /// and then enforces by mode: `Revert` restores the backup bytes exactly
    /// and, with auto-stash on, archives the denied content when it differs
    /// from the backup; `StashOnly` archives without restoring;
    /// `NotifyOnly` does nothing further. A locked delete emits
    /// `BlockedDelete`; it is archived as a deletion record under
    /// `StashOnly` always and under `Revert` when auto-stash is on, and
    /// never under `NotifyOnly`.
    pub fn handle_fs_event(
        &mut self,
        event: &RawFsEvent,
        current_content: Option<Vec<u8>>,
        now_ms: u64,
    ) -> (out: EventOutcome)
        requires
            stash_ids_bounded(old(self).stash_manager),
        ensures
            final(self).config == old(self).config,
            final(self).locked_paths == old(self).locked_paths,
            ({
                let mon = spec_is_monitored(
                    old(self).config.monitored_processes.deep_view(),
                    event.process_name@,
                );
                let lockd = spec_path_locked(old(self).locked_paths@, event.path@);
                let op = event.operation@;
                let vs0 = vault_views(old(self).backups.entries@);
                let ss0 = stash_views(old(self).stash_manager.entries@);
                let mode = old(self).config.block_mode;
                let auto = old(self).config.auto_stash;
                let actual = resolve_effective(event.process_name@, event.path@);
                &&& (!mon ==> {
                    &&& out.events@ =~= Seq::<GuardianEvent>::empty()
                    &&& out.actions@ =~= Seq::<FsAction>::empty()
                    &&& stash_views(final(self).stash_manager.entries@) == ss0
                    &&& (spec_is_refresh_op(op) && current_content is Some ==> vault_views(
                        final(self).backups.entries@,
                    ) == vault_upsert(vs0, event.path@, current_content->0@))
                    &&& (!(spec_is_refresh_op(op) && current_content is Some) ==> vault_views(
                        final(self).backups.entries@,
                    ) == vs0)
                })
                &&& (mon && !lockd ==> {
                    &&& out.events@ =~= Seq::<GuardianEvent>::empty()
                    &&& out.actions@ =~= Seq::<FsAction>::empty()
                    &&& stash_views(final(self).stash_manager.entries@) == ss0
                    &&& vault_views(final(self).backups.entries@) == vs0
                })
                &&& (mon && lockd && spec_is_write_like(op) ==> {
                    &&& vault_views(final(self).backups.entries@) == vs0
                    &&& out.events@.len() >= 1
                    &&& (out.events@[0] matches GuardianEvent::BlockedWrite {
                        path,
                        process,
                        pid,
                        timestamp,
                    } && path@ == actual && process@ == event.process_name@ && pid == event.pid
                        && timestamp == now_ms)
                    &&& (mode is NotifyOnly ==> out.events@.len() == 1 && out.actions@ =~= Seq::<
                        FsAction,
                    >::empty() && stash_views(final(self).stash_manager.entries@) == ss0)
                    &&& (mode is StashOnly ==> {
                        &&& out.actions@ =~= Seq::<FsAction>::empty()
                        &&& (current_content is None ==> out.events@.len() == 1 && stash_views(
                            final(self).stash_manager.entries@,
                        ) == ss0)
                        &&& (current_content is Some ==> out.events@.len() == 2
                            && (out.events@[1] matches GuardianEvent::StashedChange {
                            stash_id,
                            path,
                            operation,
                        } && path@ == actual && operation@ == op && stash_id >= now_ms && (forall|
                            i: int,
                        |
                            0 <= i < ss0.len() ==> (#[trigger] ss0[i].id) != stash_id)
                            && stash_views(
                            final(self).stash_manager.entries@,
                        ) == ss0.push(
                            (StashEntryView {
                                id: stash_id,
                                timestamp: now_ms,
                                path: actual,
                                process_name: event.process_name@,
                                pid: event.pid,
                                operation: op,
                                content: Some(current_content->0@),
                                file_size: current_content->0@.len() as u64,
                                file_hash: fnv1a(current_content->0@),
                                is_deletion: false,
                            }),
                        )))
                    })
                    &&& (mode is Revert ==> {
                        let backup = vault_lookup(vs0, actual);
                        &&& (backup is None ==> out.actions@ =~= Seq::<FsAction>::empty()
                            && out.events@.len() == 1 && stash_views(
                            final(self).stash_manager.entries@,
                        ) == ss0)
                        &&& (backup is Some ==> {
                            &&& out.actions@.len() == 1
                            &&& (out.actions@[0] matches FsAction::RestoreFile { path, content }
                                && path@ == actual && content@ == backup->0)
                            &&& (auto && current_content is Some && current_content->0@
                                != backup->0 ==> out.events@.len() == 2
                                && (out.events@[1] matches GuardianEvent::StashedChange {
                                stash_id,
                                path,
                                operation,
                            } && path@ == actual && operation@ == op && stash_id >= now_ms && (
                            forall|i: int|
                                0 <= i < ss0.len() ==> (#[trigger] ss0[i].id) != stash_id)
                                && stash_views(
                                final(self).stash_manager.entries@,
                            ) == ss0.push(
                                (StashEntryView {
                                    id: stash_id,
                                    timestamp: now_ms,
                                    path: actual,
                                    process_name: event.process_name@,
                                    pid: event.pid,
                                    operation: op,
                                    content: Some(current_content->0@),
                                    file_size: current_content->0@.len() as u64,
                                    file_hash: fnv1a(current_content->0@),
                                    is_deletion: false,
                                }),
                            )))
                            &&& (!(auto && current_content is Some && current_content->0@
                                != backup->0) ==> out.events@.len() == 1 && stash_views(
                                final(self).stash_manager.entries@,
                            ) == ss0)
                        })
                    })
                })
                &&& (mon && lockd && !spec_is_write_like(op) && spec_is_delete_like(op) ==> {
                    &&& vault_views(final(self).backups.entries@) == vs0
                    &&& out.actions@ =~= Seq::<FsAction>::empty()
                    &&& out.events@.len() >= 1
                    &&& (out.events@[0] matches GuardianEvent::BlockedDelete {
                        path,
                        process,
                        pid,
                        timestamp,
                    } && path@ == event.path@ && process@ == event.process_name@ && pid
                        == event.pid && timestamp == now_ms)
                    &&& (mode is NotifyOnly ==> out.events@.len() == 1 && stash_views(
                        final(self).stash_manager.entries@,
                    ) == ss0)
                    &&& ((mode is StashOnly || (mode is Revert && auto)) ==> out.events@.len() == 2
                        && (out.events@[1] matches GuardianEvent::StashedChange {
                        stash_id,
                        path,
                        operation,
                    } && path@ == event.path@ && operation@ == "delete"@ && stash_id >= now_ms && (
                    forall|i: int|
                        0 <= i < ss0.len() ==> (#[trigger] ss0[i].id) != stash_id)
                        && stash_views(
                        final(self).stash_manager.entries@,
                    ) == ss0.push(
                        (StashEntryView {
                            id: stash_id,
                            timestamp: now_ms,
                            path: event.path@,
                            process_name: event.process_name@,
                            pid: event.pid,
                            operation: "delete"@,
                            content: None,
                            file_size: 0,
                            file_hash: 0,
                            is_deletion: true,
                        }),
                    )))
                    &&& (mode is Revert && !auto ==> out.events@.len() == 1 && stash_views(
                        final(self).stash_manager.entries@,
                    ) == ss0)
                })
                &&& (mon && lockd && !spec_is_write_like(op) && !spec_is_delete_like(op) ==> {
                    &&& out.events@ =~= Seq::<GuardianEvent>::empty()
                    &&& out.actions@ =~= Seq::<FsAction>::empty()
                    &&& stash_views(final(self).stash_manager.entries@) == ss0
                    &&& vault_views(final(self).backups.entries@) == vs0
                })
            }),
    {
        let mut events: Vec<GuardianEvent> = Vec::new();
        let mut actions: Vec<FsAction> = Vec::new();
        let monitored = is_monitored_process(
            &self.config.monitored_processes,
            event.process_name.as_str(),
        );
        if !monitored {
            if is_refresh_op(event.operation.as_str()) {
                match current_content {
                    Some(c) => {
                        self.backups.insert(event.path.clone(), c);
                    },
                    None => {},
                }
            }
            return EventOutcome { events, actions };
        }
        if !is_path_locked(&event.path, &self.locked_paths) {
            return EventOutcome { events, actions };
        }
        if is_write_like(event.operation.as_str()) {
            let actual = resolve_effective_path(event.process_name.as_str(), &event.path);
            events.push(
                GuardianEvent::BlockedWrite {
                    path: actual.clone(),
                    process: event.process_name.clone(),
                    pid: event.pid,
                    timestamp: now_ms,
                },
            );
            match self.config.block_mode {
                BlockMode::Revert => {
                    let backup_opt: Option<Vec<u8>> = match self.backups.get(&actual) {
                        Some(b) => Some(crate::stash::clone_bytes(b)),
                        None => None,
                    };
                    match backup_opt {
                        Some(backup) => {
                            if self.config.auto_stash {
                                match &current_content {
                                    Some(cur) => {
                                        if !bytes_eq(cur, &backup) {
                                            let info = ProcessInfo {
                                                name: event.process_name.clone(),
                                                pid: event.pid,
                                            };
                                            let sid = self.stash_manager.create_stash(
                                                &actual,
                                                cur,
                                                &info,
                                                event.operation.as_str(),
                                                now_ms,
                                            );
                                            events.push(
                                                GuardianEvent::StashedChange {
                                                    stash_id: sid,
                                                    path: actual.clone(),
                                                    operation: event.operation.clone(),
                                                },
                                            );
                                        }
                                    },
                                    None => {},
                                }
                            }
                            actions.push(FsAction::RestoreFile { path: actual, content: backup });
                        },
                        None => {},
                    }
                },
                BlockMode::StashOnly => {
                    match &current_content {
                        Some(cur) => {
                            let info = ProcessInfo {
                                name: event.process_name.clone(),
                                pid: event.pid,
                            };
                            let sid = self.stash_manager.create_stash(
                                &actual,
                                cur,
                                &info,
                                event.operation.as_str(),
                                now_ms,
                            );
                            events.push(
                                GuardianEvent::StashedChange {
                                    stash_id: sid,
                                    path: actual.clone(),
                                    operation: event.operation.clone(),
                                },
                            );
                        },
                        None => {},
                    }
                },
                BlockMode::NotifyOnly => {},
            }
            return EventOutcome { events, actions };
        }
        if is_delete_like(event.operation.as_str()) {
            events.push(
                GuardianEvent::BlockedDelete {
                    path: event.path.clone(),
                    process: event.process_name.clone(),
                    pid: event.pid,
                    timestamp: now_ms,
                },
            );
            let stash_delete = match self.config.block_mode {
                BlockMode::NotifyOnly => false,
                BlockMode::StashOnly => true,
                BlockMode::Revert => self.config.auto_stash,
            };
            if stash_delete {
                let info = ProcessInfo { name: event.process_name.clone(), pid: event.pid };
                let sid = self.stash_manager.create_deletion_stash(&event.path, &info, now_ms);
                events.push(
                    GuardianEvent::StashedChange {
                        stash_id: sid,
                        path: event.path.clone(),
                        operation: "delete".to_owned(),
                    },
                );
            }
            return EventOutcome { events, actions };
        }
        EventOutcome { events, actions }
    }
}

/// The model filesystem after performing the actions: each `RestoreFile`
/// overwrites its path.
pub open spec fn apply_fs_actions(
    disk: Map<Seq<Seq<char>>, Seq<u8>>,
    actions: Seq<FsAction>,
) -> Map<Seq<Seq<char>>, Seq<u8>>
    decreases actions.len(),
{
    if actions.len() == 0 {
        disk
    } else {
        let rest = apply_fs_actions(disk, actions.drop_last());
        match actions.last() {
            FsAction::RestoreFile { path, content } => rest.insert(path@, content@),
        }
    }
}

/// After a revert, the on-disk content of the reverted path equals the
/// vault's entry for it: performing an outcome whose single action restores
/// `path` to the vault content leaves the model disk with exactly those
/// bytes at `path`.
pub proof fn lemma_revert_restores_backup(
    disk: Map<Seq<Seq<char>>, Seq<u8>>,
    actions: Seq<FsAction>,
    vs: Seq<(Seq<Seq<char>>, Seq<u8>)>,
    p: Seq<Seq<char>>,
)
    requires
        actions.len() == 1,
        actions[0] matches FsAction::RestoreFile { path, content } && path@ == p && content@
            == vault_lookup(vs, p)->0,
        vault_lookup(vs, p) is Some,
    ensures
        apply_fs_actions(disk, actions).contains_key(p),
        apply_fs_actions(disk, actions)[p] == vault_lookup(vs, p)->0,
{
    assert(actions.drop_last() =~= Seq::<FsAction>::empty());
    assert(apply_fs_actions(disk, actions.drop_last()) == disk);
}

} // verus!
