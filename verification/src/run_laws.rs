//! What the functions that deduplicate an archive return, for every result they can
//! return: single steps, whole runs on files, and the calls of `ar`.

use std::collections::hash_map::DefaultHasher;
use vstd::prelude::*;
use vstd::std_specs::hash::DefaultHasherAdditionalSpecFns;

use crate::archive::{
    archive_members, filename_char, member_views, ArchiveError, ArchiveFault, ArchiveMember,
    MemberView,
};
use crate::dedupe::{
    advance, candidate, compose_args, compose_outcome, compose_spawn_error, dedupe_archive_members,
    deduped_archive_name, find_candidate, hash_of, member_args, member_file, member_file_name,
    member_hash, names_object, no_objects_error, no_parent_error, resembles, seen_views, settle,
    slice_hash_writes, spill_dir_name, stored_view, texts, DedupeAction, DedupeRun, DedupeWork,
    DedupedArchive, RunView, SeenArchiveMember, SeenView,
};
use crate::dedupe_laws::{
    distinct_objects, law_dedupe_composes_distinct_objects, law_distinct_objects, law_object_names,
    lemma_candidate, names_index, read_file, run_to_end,
};
use crate::reading_laws::{held_members, is_fault_of, law_archive_is_read, names_file, reads_to_end};
use crate::text::padded_text;
use crate::text_laws::{
    is_text_of, law_decimal_text_shows_number, law_padded_text_shows_number, law_text_is_decoded,
    shows, shows_padded,
};
use crate::tool::{arg_views, ArgView, ToolArg, ToolArgument};

verus! {

/// A member is told to be an object exactly when its name is not that of an archive
/// index, however long it is and whatever else it holds.
pub proof fn law_names_object(name: &str, object: bool)
    requires
        call_ensures(names_object, (name,), object),
    ensures
        object <==> !names_index(name@),
{
    law_object_names(name@);
}

/// The hash of contents is what a fresh default hasher finishes with once they have
/// been fed to it, so equal contents have equal hashes.
pub proof fn law_member_hash(bytes: &[u8], hash: u64)
    requires
        call_ensures(member_hash, (bytes,), hash),
    ensures
        hash == DefaultHasher::spec_finish(slice_hash_writes(bytes@)),
{
}

/// Whether `file` is the file of the member `name` that is kept as number `index`:
/// the number in six digits or more, an underscore, and the member name with an
/// underscore for each path separator.
pub open spec fn is_member_file(index: nat, name: Seq<char>, file: Seq<char>) -> bool {
    exists|number: Seq<char>, plain: Seq<char>| #[trigger]
        shows_padded(number, index, 6) && #[trigger] names_file(name, plain) && file == number
            + seq!['_'] + plain
}

/// The name of a member's file holds its number and its name.
pub proof fn law_member_file(index: nat, name: Seq<char>)
    ensures
        is_member_file(index, name, member_file(index, name)),
{
    let number = padded_text(index, 6);
    let plain = name.map_values(|ch: char| filename_char(ch));
    law_padded_text_shows_number(index, 6);
    assert(names_file(name, plain));
}

/// A member's file is named by its number and its name. A name without path
/// separators closes the name of the file as it is.
pub proof fn law_member_file_name(index: usize, name: &str, file: String)
    requires
        call_ensures(member_file_name, (index, name), file),
    ensures
        is_member_file(index as nat, name@, file@),
        !name@.contains('/') && !name@.contains('\\') && !name@.contains(':')
            ==> name@.is_suffix_of(file@),
{
    law_member_file(index as nat, name@);
    if !name@.contains('/') && !name@.contains('\\') && !name@.contains(':') {
        let number = padded_text(index as nat, 6);
        let start = number.len() + 1;
        assert forall|i: int| 0 <= i < name@.len() implies file@[start + i] == name@[i] by {
            assert(name@.contains(name@[i]));
        }
        assert(file@.subrange(start as int, file@.len() as int) =~= name@);
    }
}

/// The candidate is the first kept member, from the given number on, that has the
/// name, the length and the hash; there is none only where no kept member has.
pub proof fn law_find_candidate(
    seen: &[SeenArchiveMember],
    from: usize,
    name: &String,
    len: u64,
    hash: u64,
    found: Option<usize>,
)
    requires
        call_ensures(find_candidate, (seen, from, name, len, hash), found),
    ensures
        match found {
            Some(i) => {
                &&& from <= i < seen@.len()
                &&& seen@[i as int].name@ == name@
                &&& seen@[i as int].len == len
                &&& seen@[i as int].hash == hash
                &&& forall|j: int|
                    from <= j < i ==> {
                        ||| (#[trigger] seen@[j]).name@ != name@
                        ||| seen@[j].len != len
                        ||| seen@[j].hash != hash
                    }
            },
            None => forall|j: int|
                from <= j < seen@.len() ==> {
                    ||| (#[trigger] seen@[j]).name@ != name@
                    ||| seen@[j].len != len
                    ||| seen@[j].hash != hash
                },
        },
{
    let views = seen_views(seen@);
    lemma_candidate(views, from as nat, name@, len as nat, hash);
    assert forall|j: int| 0 <= j < seen@.len() implies views[j] == (#[trigger] seen@[j])@ by {}
    assert forall|j: int|
        0 <= j < seen@.len() && !resembles(views[j], name@, len as nat, hash) implies {
        ||| (#[trigger] seen@[j]).name@ != name@
        ||| seen@[j].len != len
        ||| seen@[j].hash != hash
    } by {}
}

/// Whether a kept member has the name of `member`, and the length and hash of its
/// contents.
pub open spec fn looks_like(seen: SeenView, member: MemberView) -> bool {
    &&& seen.name == member.name
    &&& seen.len == member.bytes.len()
    &&& seen.hash == DefaultHasher::spec_finish(slice_hash_writes(member.bytes))
}

/// Whether a run goes on with `member` as it has to, when the kept members before
/// number `from` are ruled out: the file of the next one that looks like it is read
/// back, and without one the member is written to a file of its own.
pub open spec fn settles(
    pending: Seq<MemberView>,
    seen: Seq<SeenView>,
    member: MemberView,
    from: nat,
    next: RunView,
    action: DedupeAction,
) -> bool {
    match action {
        DedupeWork::ReadBack(file) => {
            let i = next.probe as int;
            &&& from <= i < seen.len()
            &&& looks_like(seen[i], member)
            &&& forall|j: int| from <= j < i ==> !looks_like(#[trigger] seen[j], member)
            &&& file@ == seen[i].path
            &&& next.current == Some(member)
            &&& next.pending == pending
            &&& next.seen == seen
        },
        DedupeWork::Write(file, bytes) => {
            &&& forall|j: int| from <= j < seen.len() ==> !looks_like(#[trigger] seen[j], member)
            &&& is_member_file(seen.len(), member.name, file@)
            &&& bytes@ == member.bytes
            &&& next.current is None
            &&& next.pending == pending
            &&& next.seen.len() == seen.len() + 1
            &&& next.seen.drop_last() == seen
            &&& looks_like(next.seen.last(), member)
            &&& next.seen.last().path == file@
        },
        _ => false,
    }
}

/// Whether `members` are archive indexes only.
pub open spec fn only_indexes(members: Seq<MemberView>) -> bool {
    forall|j: int| 0 <= j < members.len() ==> names_index((#[trigger] members[j]).name)
}

/// Whether the member at `k` is the first object among `members`.
pub open spec fn first_object_at(members: Seq<MemberView>, k: int) -> bool {
    &&& 0 <= k < members.len()
    &&& only_indexes(members.take(k))
    &&& !names_index(members[k].name)
}

/// Whether `action` composes the archive from the files of all kept members, or says
/// that there are none.
pub open spec fn composes(seen: Seq<SeenView>, action: DedupeAction) -> bool {
    match action {
        DedupeWork::Compose(files) => {
            &&& seen.len() > 0
            &&& files@.len() == seen.len()
            &&& forall|i: int| 0 <= i < seen.len() ==> (#[trigger] files@[i])@ == seen[i].path
        },
        DedupeWork::NoObjects => seen.len() == 0,
        _ => false,
    }
}

/// Whether a run goes on with the next object as it has to: archive indexes are
/// passed over, and when no object is left the archive is composed from the files
/// of all kept members, where there are any.
pub open spec fn takes_next(
    pending: Seq<MemberView>,
    seen: Seq<SeenView>,
    next: RunView,
    action: DedupeAction,
) -> bool {
    if only_indexes(pending) {
        &&& next.current is None
        &&& next.pending.len() == 0
        &&& next.seen == seen
        &&& composes(seen, action)
    } else {
        exists|k: int| #[trigger]
            first_object_at(pending, k) && settles(
                pending.skip(k + 1),
                seen,
                pending[k],
                0,
                next,
                action,
            )
    }
}

proof fn lemma_settles(
    pending: Seq<MemberView>,
    seen: Seq<SeenView>,
    member: MemberView,
    from: nat,
    next: RunView,
    action: DedupeAction,
)
    requires
        (next, action@) == settle(pending, seen, member, from),
    ensures
        settles(pending, seen, member, from, next, action),
{
    let len = member.bytes.len();
    let hash = hash_of(member.bytes);
    lemma_candidate(seen, from, member.name, len, hash);
    law_member_file(seen.len(), member.name);
    assert forall|j: int| 0 <= j < seen.len() implies resembles(
        #[trigger] seen[j],
        member.name,
        len,
        hash,
    ) == looks_like(seen[j], member) by {}
    if candidate(seen, from, member.name, len, hash) is None {
        assert(next.seen.drop_last() =~= seen);
    }
}

proof fn lemma_composes(seen: Seq<SeenView>, next: RunView, action: DedupeAction)
    requires
        (next, action@) == advance(Seq::empty(), seen),
    ensures
        composes(seen, action),
        next.current is None,
        next.pending.len() == 0,
        next.seen == seen,
{
    if let DedupeWork::Compose(files) = action {
        let paths = seen.map_values(|s: SeenView| s.path);
        assert(texts(files@) == paths);
        assert(texts(files@).len() == files@.len());
        assert forall|i: int| 0 <= i < seen.len() implies (#[trigger] files@[i])@
            == seen[i].path by {
            assert(texts(files@)[i] == files@[i]@);
            assert(paths[i] == seen[i].path);
        }
    }
}

/// Indexes in front of members change neither whether these are indexes only, nor
/// which is the first object among them.
proof fn lemma_index_in_front(members: Seq<MemberView>)
    requires
        members.len() > 0,
        names_index(members[0].name),
    ensures
        only_indexes(members) <==> only_indexes(members.drop_first()),
        forall|k: int| #[trigger]
            first_object_at(members.drop_first(), k) ==> first_object_at(members, k + 1),
{
    let rest = members.drop_first();
    if only_indexes(rest) {
        assert forall|j: int| 0 <= j < members.len() implies names_index(
            (#[trigger] members[j]).name,
        ) by {
            if j > 0 {
                assert(members[j] == rest[j - 1]);
            }
        }
    }
    if only_indexes(members) {
        assert forall|j: int| 0 <= j < rest.len() implies names_index(
            (#[trigger] rest[j]).name,
        ) by {
            assert(rest[j] == members[j + 1]);
        }
    }
    assert forall|k: int| #[trigger] first_object_at(rest, k) implies first_object_at(
        members,
        k + 1,
    ) by {
        let front = members.take(k + 1);
        assert forall|j: int| 0 <= j < front.len() implies names_index(
            (#[trigger] front[j]).name,
        ) by {
            if j > 0 {
                assert(front[j] == rest.take(k)[j - 1]);
            } else {
                assert(front[0] == members[0]);
            }
        }
        assert(members[k + 1] == rest[k]);
    }
}

proof fn lemma_takes_next(
    pending: Seq<MemberView>,
    seen: Seq<SeenView>,
    next: RunView,
    action: DedupeAction,
)
    requires
        (next, action@) == advance(pending, seen),
    ensures
        takes_next(pending, seen, next, action),
    decreases pending.len(),
{
    if pending.len() == 0 {
        assert(pending =~= Seq::empty());
        lemma_composes(seen, next, action);
    } else {
        law_object_names(pending[0].name);
        let rest = pending.drop_first();
        if !names_index(pending[0].name) {
            lemma_settles(rest, seen, pending[0], 0, next, action);
            assert(pending.skip(1) =~= rest);
            assert(first_object_at(pending, 0));
        } else {
            lemma_takes_next(rest, seen, next, action);
            lemma_index_in_front(pending);
            if !only_indexes(rest) {
                let k = choose|k: int| #[trigger]
                    first_object_at(rest, k) && settles(
                        rest.skip(k + 1),
                        seen,
                        rest[k],
                        0,
                        next,
                        action,
                    );
                assert(rest[k] == pending[k + 1]);
                assert(rest.skip(k + 1) =~= pending.skip(k + 2));
                assert(first_object_at(pending, k + 1));
            }
        }
    }
}

/// Whether `stored` holds exactly these bytes.
pub open spec fn answers(stored: Option<Vec<u8>>, bytes: Seq<u8>) -> bool {
    stored matches Some(held) && held@ == bytes
}

/// Each step goes on as it has to. A member that a file was read back for is given
/// up only when the answer holds exactly its contents; after any other answer, and
/// after none, the kept members behind that one are tried, and then the member is
/// written. After a member that was given up or written, and at the start, the run
/// goes on with the next object.
pub proof fn law_step(
    run: DedupeRun,
    stored: Option<Vec<u8>>,
    next: DedupeRun,
    action: DedupeAction,
)
    requires
        call_ensures(DedupeRun::step, (run, stored), (next, action)),
    ensures
        match run@.current {
            Some(member) => if answers(stored, member.bytes) {
                takes_next(run@.pending, run@.seen, next@, action)
            } else {
                settles(run@.pending, run@.seen, member, run@.probe + 1, next@, action)
            },
            None => takes_next(run@.pending, run@.seen, next@, action),
        },
{
    assert((next@, action@) == run@.step(stored_view(stored)));
    match run@.current {
        Some(member) => {
            if answers(stored, member.bytes) {
                assert(stored_view(stored) == Some(member.bytes));
                lemma_takes_next(run@.pending, run@.seen, next@, action);
            } else {
                lemma_settles(run@.pending, run@.seen, member, run@.probe + 1, next@, action);
            }
        },
        None => {
            lemma_takes_next(run@.pending, run@.seen, next@, action);
        },
    }
}

/// A run starts with all members before it and none kept.
pub proof fn law_new(members: Vec<ArchiveMember>, run: DedupeRun)
    requires
        call_ensures(DedupeRun::new, (members,), run),
    ensures
        run@.current is None,
        run@.pending == held_members(members@),
        run@.seen.len() == 0,
{
    assert(member_views(members@) =~= held_members(members@));
}

/// A run over an archive starts with the members that the archive reads as. Where
/// there is no run, what is wrong with the archive is reported.
pub proof fn law_dedupe_archive_members(data: &[u8], run: Result<DedupeRun, ArchiveError>)
    requires
        call_ensures(dedupe_archive_members, (data,), run),
        data@.len() <= usize::MAX,
    ensures
        match run {
            Ok(r) => {
                &&& r@.current is None
                &&& reads_to_end(data@, r@.pending)
                &&& r@.seen.len() == 0
            },
            Err(fault) => is_fault_of(data@, fault),
        },
{
    let fault = match run {
        Err(fault) => fault,
        Ok(_) => ArchiveFault::NotAnArchive,
    };
    law_archive_is_read(data@, fault);
}

/// A run over an archive is a run over the members that are read from it.
pub proof fn law_dedupe_reads_the_archive(
    data: &[u8],
    run: Result<DedupeRun, ArchiveError>,
    members: Result<Vec<ArchiveMember>, ArchiveError>,
)
    requires
        call_ensures(dedupe_archive_members, (data,), run),
        call_ensures(archive_members, (data,), members),
    ensures
        run is Ok <==> members is Ok,
        run matches Ok(r) ==> r@.pending == held_members(members->Ok_0@) && r@.current is None
            && r@.seen.len() == 0,
{
    if let Ok(m) = members {
        assert(member_views(m@) =~= held_members(m@));
    }
}

/// A run as it works on files: the runs from its start to its end, what each step
/// was told, what it asked for, and the files before it.
pub struct Trace {
    pub runs: Seq<DedupeRun>,
    pub told: Seq<Option<Vec<u8>>>,
    pub asked: Seq<DedupeAction>,
    pub disks: Seq<Map<Seq<char>, Seq<u8>>>,
}

/// Whether `stored` is what is read of `file`: its contents, or nothing where there
/// is no such file.
pub open spec fn is_read_of(
    stored: Option<Vec<u8>>,
    disk: Map<Seq<char>, Seq<u8>>,
    file: Seq<char>,
) -> bool {
    match stored {
        Some(bytes) => disk.contains_key(file) && bytes@ == disk[file],
        None => !disk.contains_key(file),
    }
}

impl Trace {
    /// Whether step `k` was taken, on the run and the answer at its place, and what
    /// it asked for was done: a file to write was written, and of a file to read
    /// back the next step was told.
    pub open spec fn takes_step(self, k: int) -> bool {
        &&& call_ensures(
            DedupeRun::step,
            (self.runs[k], self.told[k]),
            (self.runs[k + 1], self.asked[k]),
        )
        &&& self.disks[k + 1] == match self.asked[k] {
            DedupeWork::Write(file, bytes) => self.disks[k].insert(file@, bytes@),
            _ => self.disks[k],
        }
        &&& k + 1 < self.asked.len() ==> match self.asked[k] {
            DedupeWork::ReadBack(file) => is_read_of(self.told[k + 1], self.disks[k + 1], file@),
            DedupeWork::Write(_, _) => self.told[k + 1] is None,
            _ => false,
        }
    }

    /// Whether the trace runs to an end.
    pub open spec fn runs_to_end(self) -> bool {
        &&& self.asked.len() > 0
        &&& self.told.len() == self.asked.len()
        &&& self.runs.len() == self.asked.len() + 1
        &&& self.disks.len() == self.asked.len() + 1
        &&& self.told[0] is None
        &&& forall|k: int| 0 <= k < self.asked.len() ==> #[trigger] self.takes_step(k)
        &&& self.asked.last() is Compose || self.asked.last() is NoObjects
    }
}

/// What a trace came to, in the terms of a run on files.
spec fn trace_end(trace: Trace) -> Option<(Seq<Seq<char>>, Map<Seq<char>, Seq<u8>>)> {
    match trace.asked.last() {
        DedupeWork::Compose(files) => Some((texts(files@), trace.disks.last())),
        _ => None,
    }
}

proof fn lemma_trace(trace: Trace, k: int)
    requires
        trace.runs_to_end(),
        0 <= k < trace.asked.len(),
    ensures
        run_to_end(trace.runs[k]@, stored_view(trace.told[k]), trace.disks[k]) == trace_end(trace),
    decreases trace.asked.len() - k,
{
    assert(trace.takes_step(k));
    let (next, action) = trace.runs[k]@.step(stored_view(trace.told[k]));
    assert(action == trace.asked[k]@);
    if k + 1 < trace.asked.len() {
        lemma_trace(trace, k + 1);
        if let DedupeWork::ReadBack(file) = trace.asked[k] {
            assert(stored_view(trace.told[k + 1]) == read_file(trace.disks[k + 1], file@));
        }
    }
}

/// Whether a run that ends by asking for `action` has put exactly `kept` into the
/// archive: each in a file of its own, in order; or has found nothing to put there.
pub open spec fn ends_on(
    action: DedupeAction,
    disk: Map<Seq<char>, Seq<u8>>,
    kept: Seq<MemberView>,
) -> bool {
    match action {
        DedupeWork::Compose(files) => {
            &&& kept.len() > 0
            &&& files@.len() == kept.len()
            &&& forall|i: int|
                0 <= i < kept.len() ==> {
                    &&& is_member_file(i as nat, kept[i].name, (#[trigger] files@[i])@)
                    &&& disk.contains_key(files@[i]@)
                    &&& disk[files@[i]@] == kept[i].bytes
                }
        },
        DedupeWork::NoObjects => kept.len() == 0,
        _ => false,
    }
}

proof fn lemma_trace_ends(trace: Trace, members: Seq<MemberView>)
    requires
        trace.runs_to_end(),
        trace.runs[0]@ == RunView::start(members),
    ensures
        ends_on(trace.asked.last(), trace.disks.last(), distinct_objects(members)),
{
    let kept = distinct_objects(members);
    lemma_trace(trace, 0);
    law_dedupe_composes_distinct_objects(members, trace.disks[0]);
    if let DedupeWork::Compose(files) = trace.asked.last() {
        let composed = texts(files@);
        assert(composed.len() == files@.len());
        assert forall|i: int| 0 <= i < kept.len() implies {
            &&& is_member_file(i as nat, kept[i].name, (#[trigger] files@[i])@)
            &&& trace.disks.last().contains_key(files@[i]@)
            &&& trace.disks.last()[files@[i]@] == kept[i].bytes
        } by {
            assert(composed[i] == files@[i]@);
            law_member_file(i as nat, kept[i].name);
        }
    }
}

/// A run over members, on files that keep what is written to them, ends by composing
/// the archive from exactly the objects among the members, each once, in the order
/// in which they come first, each from a file that holds its contents. It finds no
/// objects exactly where there are none.
pub proof fn law_run_composes_every_object_once(members: Vec<ArchiveMember>, trace: Trace)
    requires
        trace.runs_to_end(),
        call_ensures(DedupeRun::new, (members,), trace.runs[0]),
    ensures
        ends_on(trace.asked.last(), trace.disks.last(), distinct_objects(held_members(members@))),
{
    assert(member_views(members@) =~= held_members(members@));
    lemma_trace_ends(trace, held_members(members@));
}

/// A run over an archive composes exactly the objects among the members that the
/// archive reads as, each once and in order.
pub proof fn law_run_over_archive_composes_every_object_once(
    data: &[u8],
    trace: Trace,
    members: Seq<MemberView>,
)
    requires
        trace.runs_to_end(),
        call_ensures(
            dedupe_archive_members,
            (data,),
            Ok::<DedupeRun, ArchiveError>(trace.runs[0]),
        ),
        trace.runs[0]@.pending == members,
    ensures
        ends_on(trace.asked.last(), trace.disks.last(), distinct_objects(members)),
{
    lemma_trace_ends(trace, members);
}

/// Whether `arg` is the file of `member`, kept as number `index`, and holds its
/// contents.
pub open spec fn passes_member(
    arg: ToolArg,
    disk: Map<Seq<char>, Seq<u8>>,
    index: nat,
    member: MemberView,
) -> bool {
    match arg {
        ToolArgument::Member(file) => {
            &&& is_member_file(index, member.name, file@)
            &&& disk.contains_key(file@)
            &&& disk[file@] == member.bytes
        },
        _ => false,
    }
}

/// Every object of the archive reaches `ar`: an object is among the members iff one
/// of the files behind the archive on the command line holds its contents under its
/// name, and no two of these files are of the same object.
pub proof fn law_every_object_reaches_ar(
    members: Vec<ArchiveMember>,
    trace: Trace,
    files: Vec<String>,
    args: Vec<ToolArg>,
    member: MemberView,
)
    requires
        trace.runs_to_end(),
        call_ensures(DedupeRun::new, (members,), trace.runs[0]),
        trace.asked.last() == DedupeWork::<String, Vec<u8>, Vec<String>>::Compose(files),
        call_ensures(compose_args, (&files,), args),
    ensures
        ({
            let kept = distinct_objects(held_members(members@));
            &&& kept.no_duplicates()
            &&& kept.contains(member) <==> held_members(members@).contains(member) && !names_index(
                member.name,
            )
            &&& args@.len() == 2 + kept.len()
            &&& forall|i: int|
                0 <= i < kept.len() ==> passes_member(
                    args@[2 + i],
                    trace.disks.last(),
                    i as nat,
                    #[trigger] kept[i],
                )
        }),
{
    let kept = distinct_objects(held_members(members@));
    law_run_composes_every_object_once(members, trace);
    law_distinct_objects(held_members(members@));
    law_compose_args(&files, args);
    assert forall|i: int| 0 <= i < kept.len() implies passes_member(
        args@[2 + i],
        trace.disks.last(),
        i as nat,
        #[trigger] kept[i],
    ) by {
        assert(is_member_file(i as nat, kept[i].name, files@[i]@));
        assert(passes(args@[2 + i], files@[i]@));
    }
}

/// Whether `arg` is the member file of this name.
pub open spec fn passes(arg: ToolArg, file: Seq<char>) -> bool {
    arg matches ToolArgument::Member(passed) && passed@ == file
}

/// `ar` is told to replace, create and index, and is given the archive and then every
/// file, in order and nothing else.
pub proof fn law_compose_args(files: &Vec<String>, args: Vec<ToolArg>)
    requires
        call_ensures(compose_args, (files,), args),
    ensures
        args@.len() == 2 + files@.len(),
        args@[0] matches ToolArgument::Text(text) && text@ == "-rcs"@,
        args@[1] is Archive,
        forall|i: int| 0 <= i < files@.len() ==> passes(args@[2 + i], (#[trigger] files@[i])@),
{
    let views = arg_views(args@);
    assert(views.len() == args@.len());
    assert(views[0] == args@[0]@);
    assert(views[1] == args@[1]@);
    assert(views[0] == ArgView::Text("-rcs"@));
    assert(views[1] == ArgView::Archive);
    assert(texts(files@).len() == files@.len());
    assert(member_args(texts(files@)).len() == files@.len());
    assert forall|i: int| 0 <= i < files@.len() implies passes(
        args@[2 + i],
        (#[trigger] files@[i])@,
    ) by {
        assert(views[2 + i] == args@[2 + i]@);
        assert(views[2 + i] == ArgView::Member(files@[i]@));
    }
}

/// The path of a deduplicated archive is that of the archive, and not that of its
/// directory.
pub proof fn law_deduped_archive_path<Path>(archive: &DedupedArchive<Path>, path: &Path)
    requires
        call_ensures(DedupedArchive::<Path>::path, (archive,), path),
    ensures
        *path == archive.archive_path,
{
}

/// Whether `name` is made of the stem, a mark, and the process id.
pub open spec fn is_spill_name(stem: Option<&str>, pid: u32, name: Seq<char>) -> bool {
    exists|id: Seq<char>| #[trigger]
        shows(id, pid as nat) && name == match stem {
            Some(s) => s@,
            None => "staticlib"@,
        } + ".dedup-"@ + id
}

/// The directory that members are spilled into is named by the archive's stem and
/// the process, and the deduplicated archive like the directory, with an extension.
pub proof fn law_spill_names(stem: Option<&str>, pid: u32, dir: String, archive: String)
    requires
        call_ensures(spill_dir_name, (stem, pid), dir),
        call_ensures(deduped_archive_name, (stem, pid), archive),
    ensures
        is_spill_name(stem, pid, dir@),
        archive@ == dir@ + ".a"@,
{
    law_decimal_text_shows_number(pid as nat);
}

/// That an archive holds no objects is reported with its path.
pub proof fn law_no_objects_error(archive: &str, text: String)
    requires
        call_ensures(no_objects_error, (archive,), text),
    ensures
        text@ == "archive dedupe found no object members in "@ + archive@
            + " - archive may be empty or corrupt"@,
{
}

/// That an archive lies in no directory is reported with its path.
pub proof fn law_no_parent_error(archive: &str, text: String)
    requires
        call_ensures(no_parent_error, (archive,), text),
    ensures
        text@ == "staticlib path has no parent directory: "@ + archive@,
{
}

/// That `ar` cannot be run is reported with the cause.
pub proof fn law_compose_spawn_error(cause: &str, text: String)
    requires
        call_ensures(compose_spawn_error, (cause,), text),
    ensures
        text@ == "invoking ar -rcs for archive dedupe: "@ + cause@,
{
}

/// An archive is composed exactly when `ar` succeeds. A failure is reported with the
/// archive and all that `ar` wrote.
pub proof fn law_compose_outcome(
    success: bool,
    archive: &str,
    stderr: &[u8],
    outcome: Result<(), String>,
)
    requires
        call_ensures(compose_outcome, (success, archive, stderr), outcome),
    ensures
        outcome is Ok <==> success,
        outcome matches Err(text) ==> exists|written: Seq<char>| #[trigger]
            is_text_of(stderr@, written) && text@ == "ar -rcs failed for "@ + archive@ + ":\n"@
                + written,
{
    law_text_is_decoded(stderr@);
}

} // verus!
