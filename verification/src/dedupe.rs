//! Deciding which members of an archive to keep.
//!
//! A static archive can hold the same object twice, byte for byte, and it can
//! hold different objects under one name. The first kind must go before every
//! member is linked, the second must stay. Kept members are spilled into files
//! of their own, so that the archive can be composed anew from them.

use std::collections::hash_map::DefaultHasher;
use std::collections::VecDeque;
use std::hash::{Hash, Hasher};
use vstd::prelude::*;
use vstd::std_specs::hash::DefaultHasherAdditionalSpecFns;

use crate::archive::{
    archive_member_filename, archive_members, filename_char, member_views, members_of, ArchiveError,
    ArchiveMember, MemberView,
};
use crate::text::{
    chars_of, decimal, decimal_text, decoded_text, lossy_text, padded_decimal, padded_text,
};
use crate::tool::{arg_views, push_arg, push_text, ArgView, ToolArg, ToolArgument};

verus! {

/// The writes that a byte slice makes into a hasher when it is hashed.
pub uninterp spec fn slice_hash_writes(bytes: Seq<u8>) -> Seq<Seq<u8>>;

/// Calls `<[u8] as Hash>::hash` on a `DefaultHasher`. On a given target what is
/// written depends on the bytes alone: the standard library warns only of
/// targets that differ in pointer width or byte order. The 64-bit macOS targets,
/// the two that bundles are linked for, agree on both.
#[verifier::external_body]
fn feed_bytes(bytes: &[u8], hasher: &mut DefaultHasher)
    ensures
        final(hasher)@ == old(hasher)@ + slice_hash_writes(bytes@),
{
    bytes.hash(hasher)
}

/// The hash of `bytes` under a fresh default hasher.
pub open spec fn hash_of(bytes: Seq<u8>) -> u64 {
    DefaultHasher::spec_finish(slice_hash_writes(bytes))
}

/// Hashes the contents of a member.
pub fn member_hash(bytes: &[u8]) -> (hash: u64)
    ensures
        hash == hash_of(bytes@),
{
    let mut hasher = DefaultHasher::new();
    feed_bytes(bytes, &mut hasher);
    assert(hasher@ =~= slice_hash_writes(bytes@));
    hasher.finish()
}

/// A member that has been kept: its name, the length and hash of its contents,
/// and the file that holds them.
#[derive(Debug, PartialEq, Eq)]
pub struct SeenArchiveMember {
    pub name: String,
    pub len: u64,
    pub hash: u64,
    pub path: String,
}

/// What a [`SeenArchiveMember`] stands for.
#[verifier::ext_equal]
pub struct SeenView {
    pub name: Seq<char>,
    pub len: nat,
    pub hash: u64,
    pub path: Seq<char>,
}

impl View for SeenArchiveMember {
    type V = SeenView;

    open spec fn view(&self) -> SeenView {
        SeenView { name: self.name@, len: self.len as nat, hash: self.hash, path: self.path@ }
    }
}

/// The prefix of the names that a macOS archive index goes by.
pub open spec fn index_prefix() -> Seq<char> {
    seq!['_', '_', '.', 'S', 'Y', 'M', 'D', 'E', 'F']
}

/// Whether a member of this name is an object, and no archive index.
pub open spec fn is_object_name(name: Seq<char>) -> bool {
    &&& name.len() > 0
    &&& !index_prefix().is_prefix_of(name)
    &&& name != seq!['/']
}

/// Tells objects from archive indexes by their name.
pub fn names_object(name: &str) -> (object: bool)
    ensures
        object == is_object_name(name@),
{
    let chars = chars_of(name);
    if chars.len() == 0 {
        return false;
    }
    if chars.len() == 1 && chars[0] == '/' {
        assert(name@ =~= seq!['/']);
        return false;
    }
    assert(name@ != seq!['/']);
    let index = chars.len() >= 9 && chars[0] == '_' && chars[1] == '_' && chars[2] == '.'
        && chars[3] == 'S' && chars[4] == 'Y' && chars[5] == 'M' && chars[6] == 'D' && chars[7]
        == 'E' && chars[8] == 'F';
    proof {
        if index {
            assert(name@.subrange(0, 9) =~= index_prefix());
        } else if index_prefix().is_prefix_of(name@) {
            assert forall|i: int| 0 <= i < 9 implies name@[i] == index_prefix()[i] by {
                assert(name@.subrange(0, 9)[i] == index_prefix()[i]);
            }
        }
    }
    !index
}

/// The file that holds the member kept as number `index`: the number makes the
/// name unique, the member name makes it readable.
pub open spec fn member_file(index: nat, name: Seq<char>) -> Seq<char> {
    padded_text(index, 6) + seq!['_'] + name.map_values(|ch: char| filename_char(ch))
}

/// Names the file for the member kept as number `index`.
pub fn member_file_name(index: usize, name: &str) -> (file: String)
    ensures
        file@ == member_file(index as nat, name@),
{
    let mut file = padded_decimal(index, 6);
    file.push('_');
    file.append(archive_member_filename(name).as_str());
    assert(file@ =~= member_file(index as nat, name@));
    file
}

/// Whether a kept member has this name, and contents of this length and hash.
pub open spec fn resembles(seen: SeenView, name: Seq<char>, len: nat, hash: u64) -> bool {
    &&& seen.name == name
    &&& seen.len == len
    &&& seen.hash == hash
}

/// The first kept member from number `from` on that has this name, and contents
/// of this length and hash.
pub open spec fn candidate(
    seen: Seq<SeenView>,
    from: nat,
    name: Seq<char>,
    len: nat,
    hash: u64,
) -> Option<nat>
    decreases seen.len() - from,
{
    if from >= seen.len() {
        None
    } else if resembles(seen[from as int], name, len, hash) {
        Some(from)
    } else {
        candidate(seen, from + 1, name, len, hash)
    }
}

/// Finds the first kept member from number `from` on that has this name, and
/// contents of this length and hash.
pub fn find_candidate(
    seen: &[SeenArchiveMember],
    from: usize,
    name: &String,
    len: u64,
    hash: u64,
) -> (found: Option<usize>)
    ensures
        match (found, candidate(seen_views(seen@), from as nat, name@, len as nat, hash)) {
            (Some(i), Some(j)) => i == j && i < seen@.len(),
            (None, None) => true,
            _ => false,
        },
{
    let mut i: usize = from;
    while i < seen.len()
        invariant
            from <= i,
            candidate(seen_views(seen@), from as nat, name@, len as nat, hash) == candidate(
                seen_views(seen@),
                i as nat,
                name@,
                len as nat,
                hash,
            ),
        decreases seen.len() - i,
    {
        let entry = &seen[i];
        assert(seen_views(seen@)[i as int] == entry@);
        if entry.len == len && entry.hash == hash && entry.name == *name {
            return Some(i);
        }
        i = i + 1;
    }
    None
}

/// The decisions of one deduplication, between two pieces of work on files.
pub struct DedupeRun {
    current: Option<ArchiveMember>,
    probe: usize,
    pending: VecDeque<ArchiveMember>,
    seen: Vec<SeenArchiveMember>,
}

/// What a [`DedupeRun`] stands for.
#[verifier::ext_equal]
pub struct RunView {
    /// The member for which a kept file is being read back.
    pub current: Option<MemberView>,
    /// The kept member whose file that is.
    pub probe: nat,
    /// The members not yet looked at.
    pub pending: Seq<MemberView>,
    /// The members kept so far.
    pub seen: Seq<SeenView>,
}

/// The work on files that a deduplication asks for next. `Text` and `Bytes` are
/// `String` and `Vec<u8>` in code, `Seq<char>` and `Seq<u8>` in contracts.
#[derive(Debug, PartialEq, Eq)]
pub enum DedupeWork<Text, Bytes, Texts> {
    /// Read the file back, and answer with its contents.
    ReadBack(Text),
    /// Write the contents to the file.
    Write(Text, Bytes),
    /// Compose the archive from the files.
    Compose(Texts),
    /// There is nothing to compose an archive from.
    NoObjects,
}

/// A [`DedupeWork`] as code holds it.
pub type DedupeAction = DedupeWork<String, Vec<u8>, Vec<String>>;

/// A [`DedupeWork`] as contracts speak of it.
pub type ActionView = DedupeWork<Seq<char>, Seq<u8>, Seq<Seq<char>>>;

/// The texts of a sequence of strings.
pub open spec fn texts(strings: Seq<String>) -> Seq<Seq<char>> {
    strings.map_values(|s: String| s@)
}

impl View for DedupeWork<String, Vec<u8>, Vec<String>> {
    type V = DedupeWork<Seq<char>, Seq<u8>, Seq<Seq<char>>>;

    open spec fn view(&self) -> DedupeWork<Seq<char>, Seq<u8>, Seq<Seq<char>>> {
        match *self {
            DedupeWork::ReadBack(file) => DedupeWork::ReadBack(file@),
            DedupeWork::Write(file, bytes) => DedupeWork::Write(file@, bytes@),
            DedupeWork::Compose(files) => DedupeWork::Compose(texts(files@)),
            DedupeWork::NoObjects => DedupeWork::NoObjects,
        }
    }
}

/// What the entry for the member kept as number `index` holds.
pub open spec fn seen_entry(index: nat, member: MemberView) -> SeenView {
    SeenView {
        name: member.name,
        len: member.bytes.len(),
        hash: hash_of(member.bytes),
        path: member_file(index, member.name),
    }
}

/// Goes on with `member`, whose candidates before number `from` are ruled out:
/// the next candidate is read back, and without one the member is kept.
pub open spec fn settle(
    pending: Seq<MemberView>,
    seen: Seq<SeenView>,
    member: MemberView,
    from: nat,
) -> (RunView, ActionView) {
    match candidate(seen, from, member.name, member.bytes.len(), hash_of(member.bytes)) {
        Some(i) => (
            RunView { current: Some(member), probe: i, pending, seen },
            DedupeWork::ReadBack(seen[i as int].path),
        ),
        None => {
            let entry = seen_entry(seen.len(), member);
            (
                RunView { current: None, probe: 0, pending, seen: seen.push(entry) },
                DedupeWork::Write(entry.path, member.bytes),
            )
        },
    }
}

/// Goes on with the next object of `pending`. After the last one the archive is
/// composed from the files of the kept members.
pub open spec fn advance(pending: Seq<MemberView>, seen: Seq<SeenView>) -> (RunView, ActionView)
    decreases pending.len(),
{
    if pending.len() == 0 {
        (
            RunView { current: None, probe: 0, pending, seen },
            if seen.len() == 0 {
                DedupeWork::NoObjects
            } else {
                DedupeWork::Compose(seen.map_values(|s: SeenView| s.path))
            },
        )
    } else if is_object_name(pending[0].name) {
        settle(pending.drop_first(), seen, pending[0], 0)
    } else {
        advance(pending.drop_first(), seen)
    }
}

impl RunView {
    /// The run before its first step.
    pub open spec fn start(members: Seq<MemberView>) -> RunView {
        RunView { current: None, probe: 0, pending: members, seen: Seq::empty() }
    }

    /// One step: `stored` is what the file to read back held, `None` where it
    /// could not be read or where none was asked for.
    pub open spec fn step(self, stored: Option<Seq<u8>>) -> (RunView, ActionView) {
        match self.current {
            None => advance(self.pending, self.seen),
            Some(member) => if stored == Some(member.bytes) {
                advance(self.pending, self.seen)
            } else {
                settle(self.pending, self.seen, member, self.probe + 1)
            },
        }
    }
}

/// `None` for no contents, the bytes otherwise.
pub open spec fn stored_view(stored: Option<Vec<u8>>) -> Option<Seq<u8>> {
    match stored {
        None => None,
        Some(bytes) => Some(bytes@),
    }
}

/// What a sequence of kept members stands for.
pub open spec fn seen_views(seen: Seq<SeenArchiveMember>) -> Seq<SeenView> {
    seen.map_values(|s: SeenArchiveMember| s@)
}

impl View for DedupeRun {
    type V = RunView;

    closed spec fn view(&self) -> RunView {
        RunView {
            current: match self.current {
                None => None,
                Some(member) => Some(member@),
            },
            probe: self.probe as nat,
            pending: member_views(self.pending@),
            seen: seen_views(self.seen@),
        }
    }
}

impl DedupeRun {
    #[verifier::type_invariant]
    spec fn well_formed(self) -> bool {
        self.current is Some ==> self.probe < self.seen@.len()
    }

    /// A run over `members`, before its first step.
    pub fn new(members: Vec<ArchiveMember>) -> (run: DedupeRun)
        ensures
            run@ == RunView::start(member_views(members@)),
    {
        let mut pending: VecDeque<ArchiveMember> = VecDeque::new();
        for member in it: members
            invariant
                it.seq() == members@,
                pending@ == members@.take(it.index() as int),
        {
            pending.push_back(member);
        }
        assert(members@.take(members@.len() as int) =~= members@);
        let run = DedupeRun { current: None, probe: 0, pending, seen: Vec::new() };
        assert(run@.seen =~= Seq::empty());
        run
    }

    /// Goes on with `member`, whose candidates before number `from` are ruled
    /// out.
    fn settle(
        pending: VecDeque<ArchiveMember>,
        seen: Vec<SeenArchiveMember>,
        member: ArchiveMember,
        from: usize,
    ) -> (next: (DedupeRun, DedupeAction))
        requires
            from <= seen@.len(),
        ensures
            (next.0@, next.1@) == settle(
                member_views(pending@),
                seen_views(seen@),
                member@,
                from as nat,
            ),
    {
        let hash: u64 = member_hash(member.bytes.as_slice());
        let len: u64 = member.bytes.len() as u64;
        match find_candidate(seen.as_slice(), from, &member.name, len, hash) {
            Some(i) => {
                let file = seen[i].path.clone();
                assert(seen_views(seen@)[i as int].path == file@);
                (
                    DedupeRun { current: Some(member), probe: i, pending, seen },
                    DedupeWork::ReadBack(file),
                )
            },
            None => {
                let mut seen = seen;
                let ghost before = seen_views(seen@);
                let ghost view = member@;
                let file = member_file_name(seen.len(), member.name.as_str());
                let ArchiveMember { name, bytes } = member;
                seen.push(
                    SeenArchiveMember {
                        name,
                        len,
                        hash,
                        path: file.clone(),
                    },
                );
                assert(seen_views(seen@) =~= before.push(seen_entry(before.len(), view)));
                (
                    DedupeRun { current: None, probe: 0, pending, seen },
                    DedupeWork::Write(file, bytes),
                )
            },
        }
    }

    /// Goes on with the next object of `queue`.
    fn advance(queue: VecDeque<ArchiveMember>, seen: Vec<SeenArchiveMember>) -> (next: (
        DedupeRun,
        DedupeAction,
    ))
        ensures
            (next.0@, next.1@) == advance(member_views(queue@), seen_views(seen@)),
    {
        let mut pending = queue;
        while pending.len() > 0
            invariant
                advance(member_views(queue@), seen_views(seen@)) == advance(
                    member_views(pending@),
                    seen_views(seen@),
                ),
            decreases pending.len(),
        {
            let ghost before = member_views(pending@);
            if let Some(member) = pending.pop_front() {
                assert(member_views(pending@) =~= before.drop_first());
                assert(before[0] == member@);
                if names_object(member.name.as_str()) {
                    return DedupeRun::settle(pending, seen, member, 0);
                }
            }
        }
        let files = file_names(&seen);
        assert(texts(files@).len() == seen_views(seen@).len());
        if files.len() == 0 {
            (DedupeRun { current: None, probe: 0, pending, seen }, DedupeWork::NoObjects)
        } else {
            (DedupeRun { current: None, probe: 0, pending, seen }, DedupeWork::Compose(files))
        }
    }

    /// Decides the next piece of work. `stored` is what the file that was to be
    /// read back held: `None` where it could not be read, and `None` after any
    /// other work.
    pub fn step(self, stored: Option<Vec<u8>>) -> (next: (DedupeRun, DedupeAction))
        ensures
            (next.0@, next.1@) == self@.step(stored_view(stored)),
    {
        proof {
            use_type_invariant(&self);
        }
        let DedupeRun { current, probe, pending, seen } = self;
        match current {
            None => DedupeRun::advance(pending, seen),
            Some(member) => {
                let duplicate = match &stored {
                    None => false,
                    Some(bytes) => same_bytes(bytes, &member.bytes),
                };
                if duplicate {
                    DedupeRun::advance(pending, seen)
                } else {
                    assert(probe < seen.len());
                    DedupeRun::settle(pending, seen, member, probe + 1)
                }
            },
        }
    }
}

fn same_bytes(a: &Vec<u8>, b: &Vec<u8>) -> (same: bool)
    ensures
        same == (a@ == b@),
{
    let same = a == b;
    assert(same ==> a@ =~= b@);
    same
}

fn file_names(seen: &Vec<SeenArchiveMember>) -> (files: Vec<String>)
    ensures
        texts(files@) == seen_views(seen@).map_values(|s: SeenView| s.path),
{
    let mut files: Vec<String> = Vec::new();
    let mut i: usize = 0;
    while i < seen.len()
        invariant
            i <= seen@.len(),
            files@.len() == i,
            forall|j: int| 0 <= j < i ==> (#[trigger] files@[j])@ == seen@[j].path@,
        decreases seen.len() - i,
    {
        files.push(seen[i].path.clone());
        i = i + 1;
    }
    assert(texts(files@) =~= seen_views(seen@).map_values(|s: SeenView| s.path));
    files
}

/// Reads the members of an archive, and starts a run over them.
pub fn dedupe_archive_members(data: &[u8]) -> (run: Result<DedupeRun, ArchiveError>)
    ensures
        match (run, members_of(data@)) {
            (Ok(r), Ok(members)) => r@ == RunView::start(members),
            (Err(e), Err(f)) => e@ == f,
            _ => false,
        },
{
    match archive_members(data) {
        Err(e) => Err(e),
        Ok(members) => Ok(DedupeRun::new(members)),
    }
}

/// A deduplicated archive, and the directory that holds its members. `Path` is
/// whatever the caller names files by.
#[derive(Debug, PartialEq, Eq)]
pub struct DedupedArchive<Path> {
    pub archive_path: Path,
    pub temp_dir: Path,
}

impl<Path> DedupedArchive<Path> {
    /// The path of the deduplicated archive.
    pub fn path(&self) -> (path: &Path)
        ensures
            *path == self.archive_path,
    {
        &self.archive_path
    }
}

/// The name of the directory that the members of an archive are spilled into.
/// The process id keeps concurrent runs apart. `stem` is the archive's file
/// name without its extension, where it has one that is text.
pub open spec fn spill_dir_text(stem: Option<Seq<char>>, pid: nat) -> Seq<char> {
    let stem = match stem {
        Some(s) => s,
        None => "staticlib"@,
    };
    stem + ".dedup-"@ + decimal_text(pid)
}

/// `None` for no text, the characters otherwise.
pub open spec fn stem_view(stem: Option<&str>) -> Option<Seq<char>> {
    match stem {
        Some(s) => Some(s@),
        None => None,
    }
}

/// Names the directory that the members of an archive are spilled into.
pub fn spill_dir_name(stem: Option<&str>, pid: u32) -> (name: String)
    ensures
        name@ == spill_dir_text(stem_view(stem), pid as nat),
{
    let mut name = match stem {
        Some(s) => s.to_owned(),
        None => "staticlib".to_owned(),
    };
    name.append(".dedup-");
    name.append(decimal(pid as usize).as_str());
    name
}

/// Names the deduplicated archive: the directory's name with an extension.
pub fn deduped_archive_name(stem: Option<&str>, pid: u32) -> (name: String)
    ensures
        name@ == spill_dir_text(stem_view(stem), pid as nat) + ".a"@,
{
    let mut name = spill_dir_name(stem, pid);
    name.append(".a");
    name
}

/// What a sequence of files stands for on the command line.
pub open spec fn member_args(files: Seq<Seq<char>>) -> Seq<ArgView> {
    files.map_values(|file: Seq<char>| ArgView::Member(file))
}

/// The arguments that make `ar` compose an archive from `files`: replace,
/// create if missing, and write the symbol table, in one pass.
pub fn compose_args(files: &Vec<String>) -> (args: Vec<ToolArg>)
    ensures
        arg_views(args@) == seq![ArgView::Text("-rcs"@), ArgView::Archive] + member_args(
            texts(files@),
        ),
{
    let mut args: Vec<ToolArg> = Vec::new();
    assert(arg_views(args@) =~= Seq::empty());
    push_text(&mut args, "-rcs");
    push_arg(&mut args, ToolArgument::Archive);
    let mut i: usize = 0;
    while i < files.len()
        invariant
            i <= files@.len(),
            arg_views(args@) =~= seq![ArgView::Text("-rcs"@), ArgView::Archive] + member_args(
                texts(files@.take(i as int)),
            ),
        decreases files.len() - i,
    {
        push_arg(&mut args, ToolArgument::Member(files[i].clone()));
        assert(texts(files@.take(i + 1)) =~= texts(files@.take(i as int)).push(
            files@[i as int]@,
        ));
        i = i + 1;
    }
    assert(files@.take(i as int) =~= files@);
    args
}

/// Reports that the archive shown as `archive` holds no objects.
pub fn no_objects_error(archive: &str) -> (text: String)
    ensures
        text@ == "archive dedupe found no object members in "@ + archive@
            + " - archive may be empty or corrupt"@,
{
    let mut text = "archive dedupe found no object members in ".to_owned();
    text.append(archive);
    text.append(" - archive may be empty or corrupt");
    text
}

/// Reports that the archive shown as `archive` lies in no directory.
pub fn no_parent_error(archive: &str) -> (text: String)
    ensures
        text@ == "staticlib path has no parent directory: "@ + archive@,
{
    let mut text = "staticlib path has no parent directory: ".to_owned();
    text.append(archive);
    text
}

/// Reports that `ar` could not be run.
pub fn compose_spawn_error(cause: &str) -> (text: String)
    ensures
        text@ == "invoking ar -rcs for archive dedupe: "@ + cause@,
{
    let mut text = "invoking ar -rcs for archive dedupe: ".to_owned();
    text.append(cause);
    text
}

/// Judges how `ar` ended on the archive shown as `archive`; a failure is
/// reported with what `ar` wrote to its error stream.
pub fn compose_outcome(success: bool, archive: &str, stderr: &[u8]) -> (outcome: Result<(), String>)
    ensures
        outcome is Ok <==> success,
        outcome matches Err(text) ==> text@ == "ar -rcs failed for "@ + archive@ + ":\n"@
            + decoded_text(stderr@),
{
    if success {
        return Ok(());
    }
    let mut text = "ar -rcs failed for ".to_owned();
    text.append(archive);
    text.append(":\n");
    text.append(lossy_text(stderr).as_str());
    Err(text)
}

} // verus!
