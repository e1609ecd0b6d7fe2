//! What a whole deduplication comes to.

use vstd::prelude::*;

use crate::archive::{filename_char, MemberView};
use crate::dedupe::{
    advance, candidate, hash_of, index_prefix, is_object_name, member_file, resembles, seen_entry,
    settle, spill_dir_text, ActionView, DedupeWork, RunView, SeenView,
};
use crate::text::{
    decimal_text, is_digit, law_decimal_text_writes_number, law_padded_text_writes_number,
    padded_text,
};

verus! {

/// Whether a member of this name is an archive index: it has no name, is named `/`,
/// or its name starts with `__.SYMDEF`.
pub open spec fn names_index(name: Seq<char>) -> bool {
    ||| name.len() == 0
    ||| name.len() == 1 && name[0] == '/'
    ||| {
        &&& name.len() >= 9
        &&& name[0] == '_'
        &&& name[1] == '_'
        &&& name[2] == '.'
        &&& name[3] == 'S'
        &&& name[4] == 'Y'
        &&& name[5] == 'M'
        &&& name[6] == 'D'
        &&& name[7] == 'E'
        &&& name[8] == 'F'
    }
}

/// A member is an object exactly when its name is not that of an archive index.
pub proof fn law_object_names(name: Seq<char>)
    ensures
        is_object_name(name) <==> !names_index(name),
{
    let mark = seq!['_', '_', '.', 'S', 'Y', 'M', 'D', 'E', 'F'];
    if name.len() == 1 && name[0] == '/' {
        assert(name =~= seq!['/']);
    }
    if name.len() >= 9 {
        assert(index_prefix() =~= mark);
        assert forall|i: int| 0 <= i < 9 implies name.subrange(0, 9)[i] == #[trigger] name[i] by {}
        if names_index(name) {
            assert(name.subrange(0, 9) =~= mark);
        } else if name.subrange(0, 9) == mark {
            assert(name[0] == mark[0] && name[1] == mark[1] && name[2] == mark[2] && name[3]
                == mark[3] && name[4] == mark[4] && name[5] == mark[5] && name[6] == mark[6]
                && name[7] == mark[7] && name[8] == mark[8]);
        }
    }
}

/// The members kept after `members`, when `kept` were kept before them: each
/// object that is not kept already, in order.
pub open spec fn keep_distinct(kept: Seq<MemberView>, members: Seq<MemberView>) -> Seq<MemberView>
    decreases members.len(),
{
    if members.len() == 0 {
        kept
    } else if !names_index(members[0].name) && !kept.contains(members[0]) {
        keep_distinct(kept.push(members[0]), members.drop_first())
    } else {
        keep_distinct(kept, members.drop_first())
    }
}

/// The objects of `members`, each once, in the order of their first occurrence.
pub open spec fn distinct_objects(members: Seq<MemberView>) -> Seq<MemberView> {
    keep_distinct(Seq::empty(), members)
}

/// How much of a run is left, counted in members: one that is still pending
/// counts more than the one that files are read back for.
pub open spec fn members_left(run: RunView) -> int {
    2 * run.pending.len() + if run.current is Some {
        1int
    } else {
        0int
    }
}

/// How many kept members the current member may still be compared with.
pub open spec fn candidates_left(run: RunView) -> int {
    run.seen.len() - run.probe
}

pub(crate) proof fn lemma_candidate(seen: Seq<SeenView>, from: nat, name: Seq<char>, len: nat, hash: u64)
    ensures
        match candidate(seen, from, name, len, hash) {
            Some(i) => {
                &&& from <= i < seen.len()
                &&& resembles(seen[i as int], name, len, hash)
                &&& forall|j: int|
                    from <= j < i ==> !resembles(#[trigger] seen[j], name, len, hash)
            },
            None => forall|j: int|
                from <= j < seen.len() ==> !resembles(#[trigger] seen[j], name, len, hash),
        },
    decreases seen.len() - from,
{
    if from < seen.len() && !resembles(seen[from as int], name, len, hash) {
        lemma_candidate(seen, from + 1, name, len, hash);
    }
}

proof fn lemma_advance_progress(pending: Seq<MemberView>, seen: Seq<SeenView>)
    ensures
        ({
            let (next, action) = advance(pending, seen);
            &&& action is ReadBack || action is Write ==> members_left(next) < 2 * pending.len()
            &&& 0 <= candidates_left(next)
        }),
    decreases pending.len(),
{
    if pending.len() > 0 {
        law_object_names(pending[0].name);
        if !names_index(pending[0].name) {
            let m = pending[0];
            lemma_candidate(seen, 0, m.name, m.bytes.len(), hash_of(m.bytes));
        } else {
            lemma_advance_progress(pending.drop_first(), seen);
        }
    }
}

/// A run ends, whatever the files answer: each step that asks for more work on
/// files leaves fewer members, or as many members and fewer candidates.
pub proof fn law_step_makes_progress(run: RunView, stored: Option<Seq<u8>>)
    ensures
        ({
            let (next, action) = run.step(stored);
            action is ReadBack || action is Write ==> {
                &&& 0 <= members_left(next)
                &&& 0 <= candidates_left(next)
                &&& members_left(next) < members_left(run) || (members_left(next) == members_left(
                    run,
                ) && candidates_left(next) < candidates_left(run))
            }
        }),
{
    lemma_advance_progress(run.pending, run.seen);
    if let Some(m) = run.current {
        lemma_candidate(run.seen, run.probe + 1, m.name, m.bytes.len(), hash_of(m.bytes));
    }
}

/// What a file system that holds `files` answers when `file` is read.
pub open spec fn read_file(files: Map<Seq<char>, Seq<u8>>, file: Seq<char>) -> Option<Seq<u8>> {
    if files.contains_key(file) {
        Some(files[file])
    } else {
        None
    }
}

/// Where a run ends that reads and writes `files`: the files to compose the
/// archive from, in order, and everything written by then; `None` where the run
/// finds no objects.
pub open spec fn run_to_end(
    run: RunView,
    stored: Option<Seq<u8>>,
    files: Map<Seq<char>, Seq<u8>>,
) -> Option<(Seq<Seq<char>>, Map<Seq<char>, Seq<u8>>)>
    decreases members_left(run), candidates_left(run),
    via run_to_end_decreases
{
    let (next, action) = run.step(stored);
    match action {
        DedupeWork::ReadBack(file) => run_to_end(next, read_file(files, file), files),
        DedupeWork::Write(file, bytes) => run_to_end(next, None, files.insert(file, bytes)),
        DedupeWork::Compose(composed) => Some((composed, files)),
        DedupeWork::NoObjects => None,
    }
}

#[via_fn]
proof fn run_to_end_decreases(
    run: RunView,
    stored: Option<Seq<u8>>,
    files: Map<Seq<char>, Seq<u8>>,
) {
    law_step_makes_progress(run, stored);
}

/// No two kept members share a file.
pub proof fn law_member_files_differ(i: nat, a: Seq<char>, j: nat, b: Seq<char>)
    ensures
        member_file(i, a) == member_file(j, b) ==> i == j,
{
    if member_file(i, a) == member_file(j, b) {
        let p = padded_text(i, 6);
        let q = padded_text(j, 6);
        law_padded_text_writes_number(i, 6);
        law_padded_text_writes_number(j, 6);
        assert(member_file(i, a)[p.len() as int] == '_');
        assert(member_file(j, b)[q.len() as int] == '_');
        if p.len() < q.len() {
            assert(member_file(j, b)[p.len() as int] == q[p.len() as int]);
            assert(is_digit(q[p.len() as int]));
        } else if q.len() < p.len() {
            assert(member_file(i, a)[q.len() as int] == p[q.len() as int]);
            assert(is_digit(p[q.len() as int]));
        }
        assert(p =~= member_file(i, a).take(p.len() as int));
        assert(q =~= member_file(j, b).take(q.len() as int));
    }
}

/// The file of a kept member lies directly in the directory it is written to:
/// its name holds no path separator, and is not empty.
pub proof fn law_member_file_is_plain(index: nat, name: Seq<char>)
    ensures
        member_file(index, name).len() > 0,
        forall|i: int|
            0 <= i < member_file(index, name).len() ==> {
                let ch = #[trigger] member_file(index, name)[i];
                ch != '/' && ch != '\\' && ch != ':'
            },
{
    law_padded_text_writes_number(index, 6);
    let digits = padded_text(index, 6);
    assert forall|i: int| 0 <= i < member_file(index, name).len() implies {
        let ch = #[trigger] member_file(index, name)[i];
        ch != '/' && ch != '\\' && ch != ':'
    } by {
        if i < digits.len() {
            assert(member_file(index, name)[i] == digits[i]);
            assert(is_digit(digits[i]));
        } else if i > digits.len() {
            assert(member_file(index, name)[i] == filename_char(name[i - digits.len() - 1]));
        }
    }
}

/// The run has kept `kept`, and every kept member lies in its file.
spec fn mirrors(run: RunView, files: Map<Seq<char>, Seq<u8>>, kept: Seq<MemberView>) -> bool {
    &&& run.seen.len() == kept.len()
    &&& forall|i: int|
        0 <= i < kept.len() ==> {
            &&& #[trigger] run.seen[i] == seen_entry(i as nat, kept[i])
            &&& files.contains_key(run.seen[i].path)
            &&& files[run.seen[i].path] == kept[i].bytes
        }
    &&& run.current matches Some(m) ==> {
        &&& !names_index(m.name)
        &&& run.probe < kept.len()
        &&& kept[run.probe as int].name == m.name
        &&& forall|j: int| 0 <= j < run.probe ==> #[trigger] kept[j] != m
    }
}

/// The members that a run has not settled.
spec fn unsettled(run: RunView) -> Seq<MemberView> {
    match run.current {
        None => run.pending,
        Some(m) => seq![m] + run.pending,
    }
}

/// What the file system answers to the run's last piece of work.
spec fn answer(run: RunView, files: Map<Seq<char>, Seq<u8>>) -> Option<Seq<u8>> {
    if run.current is Some {
        read_file(files, run.seen[run.probe as int].path)
    } else {
        None
    }
}

/// `files` holds exactly `kept` in the files to compose.
pub open spec fn composed_of(
    composed: Seq<Seq<char>>,
    files: Map<Seq<char>, Seq<u8>>,
    kept: Seq<MemberView>,
) -> bool {
    &&& composed.len() == kept.len()
    &&& forall|i: int|
        0 <= i < kept.len() ==> {
            &&& #[trigger] composed[i] == member_file(i as nat, kept[i].name)
            &&& files.contains_key(composed[i])
            &&& files[composed[i]] == kept[i].bytes
        }
}

/// Whether a run that ends in `end` has composed exactly `kept`.
pub open spec fn ends_with(
    end: Option<(Seq<Seq<char>>, Map<Seq<char>, Seq<u8>>)>,
    kept: Seq<MemberView>,
) -> bool {
    match end {
        None => kept.len() == 0,
        Some((composed, files)) => kept.len() > 0 && composed_of(composed, files, kept),
    }
}

/// Where a run ends that has just been told to do `action`.
spec fn end_from(
    next: RunView,
    action: ActionView,
    files: Map<Seq<char>, Seq<u8>>,
) -> Option<(Seq<Seq<char>>, Map<Seq<char>, Seq<u8>>)> {
    match action {
        DedupeWork::ReadBack(file) => run_to_end(next, read_file(files, file), files),
        DedupeWork::Write(file, bytes) => run_to_end(next, None, files.insert(file, bytes)),
        DedupeWork::Compose(composed) => Some((composed, files)),
        DedupeWork::NoObjects => None,
    }
}

proof fn lemma_settle(
    run: RunView,
    member: MemberView,
    from: nat,
    files: Map<Seq<char>, Seq<u8>>,
    kept: Seq<MemberView>,
)
    requires
        run.current is None,
        mirrors(run, files, kept),
        !names_index(member.name),
        from <= kept.len(),
        forall|j: int| 0 <= j < from ==> #[trigger] kept[j] != member,
    ensures
        ({
            let (next, action) = settle(run.pending, run.seen, member, from);
            ends_with(
                end_from(next, action, files),
                keep_distinct(kept, seq![member] + run.pending),
            )
        }),
    decreases 2 * run.pending.len() + 1, run.seen.len() - from, 2int,
{
    let (next, action) = settle(run.pending, run.seen, member, from);
    let len = member.bytes.len();
    let hash = hash_of(member.bytes);
    lemma_candidate(run.seen, from, member.name, len, hash);
    let left = seq![member] + run.pending;
    assert(left.drop_first() =~= run.pending);
    match candidate(run.seen, from, member.name, len, hash) {
        Some(i) => {
            assert(run.seen[i as int] == seen_entry(i, kept[i as int]));
            assert forall|j: int| 0 <= j < i implies #[trigger] kept[j] != member by {
                if from <= j {
                    assert(run.seen[j] == seen_entry(j as nat, kept[j]));
                }
            }
            assert(mirrors(next, files, kept));
            lemma_run(next, files, kept);
        },
        None => {
            if kept.contains(member) {
                let j = choose|j: int| 0 <= j < kept.len() && kept[j] == member;
                assert(run.seen[j] == seen_entry(j as nat, kept[j]));
                assert(resembles(run.seen[j], member.name, len, hash));
            }
            let entry = seen_entry(kept.len(), member);
            let written = files.insert(entry.path, member.bytes);
            let more = kept.push(member);
            assert forall|i: int| 0 <= i < more.len() implies {
                &&& #[trigger] next.seen[i] == seen_entry(i as nat, more[i])
                &&& written.contains_key(next.seen[i].path)
                &&& written[next.seen[i].path] == more[i].bytes
            } by {
                if i < kept.len() {
                    assert(next.seen[i] == run.seen[i]);
                    assert(run.seen[i] == seen_entry(i as nat, kept[i]));
                    law_member_files_differ(i as nat, kept[i].name, kept.len(), member.name);
                }
            }
            assert(mirrors(next, written, more));
            lemma_run(next, written, more);
        },
    }
}

proof fn lemma_advance(run: RunView, files: Map<Seq<char>, Seq<u8>>, kept: Seq<MemberView>)
    requires
        run.current is None,
        mirrors(run, files, kept),
    ensures
        ({
            let (next, action) = advance(run.pending, run.seen);
            ends_with(end_from(next, action, files), keep_distinct(kept, run.pending))
        }),
    decreases 2 * run.pending.len(), 0int, 0int,
{
    if run.pending.len() == 0 {
        let composed = run.seen.map_values(|s: SeenView| s.path);
        assert forall|i: int| 0 <= i < kept.len() implies {
            &&& #[trigger] composed[i] == member_file(i as nat, kept[i].name)
            &&& files.contains_key(composed[i])
            &&& files[composed[i]] == kept[i].bytes
        } by {
            assert(run.seen[i] == seen_entry(i as nat, kept[i]));
        }
    } else {
        let member = run.pending[0];
        let rest = RunView { pending: run.pending.drop_first(), ..run };
        assert(seq![member] + rest.pending =~= run.pending);
        assert(mirrors(rest, files, kept));
        law_object_names(member.name);
        if !names_index(member.name) {
            lemma_settle(rest, member, 0, files, kept);
        } else {
            lemma_advance(rest, files, kept);
        }
    }
}

proof fn lemma_run(run: RunView, files: Map<Seq<char>, Seq<u8>>, kept: Seq<MemberView>)
    requires
        mirrors(run, files, kept),
    ensures
        ends_with(
            run_to_end(run, answer(run, files), files),
            keep_distinct(kept, unsettled(run)),
        ),
    decreases
            members_left(run),
            if run.current is Some {
                candidates_left(run)
            } else {
                0
            },
            1int,
{
    let idle = RunView { current: None, ..run };
    assert(mirrors(idle, files, kept));
    match run.current {
        None => {
            lemma_advance(idle, files, kept);
        },
        Some(member) => {
            let probed = kept[run.probe as int];
            assert(run.seen[run.probe as int] == seen_entry(run.probe, probed));
            assert((seq![member] + run.pending).drop_first() =~= run.pending);
            if probed.bytes == member.bytes {
                assert(probed == member);
                assert(kept.contains(member));
                lemma_advance(idle, files, kept);
            } else {
                lemma_settle(idle, member, run.probe + 1, files, kept);
            }
        },
    }
}

/// On files that keep what is written to them, a deduplication composes the
/// archive from exactly the distinct objects among the members, in order: none is
/// lost, even where names collide, and none is left that another repeats byte
/// for byte. It finds no objects exactly when there are none.
pub proof fn law_dedupe_composes_distinct_objects(
    members: Seq<MemberView>,
    files: Map<Seq<char>, Seq<u8>>,
)
    ensures
        ends_with(
            run_to_end(RunView::start(members), None, files),
            distinct_objects(members),
        ),
{
    let run = RunView::start(members);
    assert(mirrors(run, files, Seq::empty()));
    lemma_run(run, files, Seq::empty());
}

proof fn lemma_keep_distinct(kept: Seq<MemberView>, members: Seq<MemberView>)
    requires
        kept.no_duplicates(),
    ensures
        keep_distinct(kept, members).no_duplicates(),
        forall|m: MemberView| #[trigger]
            keep_distinct(kept, members).contains(m) <==> kept.contains(m) || (!names_index(m.name)
                && members.contains(m)),
    decreases members.len(),
{
    if members.len() > 0 {
        let first = members[0];
        let rest = members.drop_first();
        assert forall|m: MemberView|
            #![trigger members.contains(m)]
            members.contains(m) <==> m == first || rest.contains(m) by {
            if members.contains(m) && m != first {
                let i = choose|i: int| 0 <= i < members.len() && members[i] == m;
                assert(rest[i - 1] == m);
            }
            if rest.contains(m) {
                let i = choose|i: int| 0 <= i < rest.len() && rest[i] == m;
                assert(members[i + 1] == m);
            }
        }
        if !names_index(first.name) && !kept.contains(first) {
            let more = kept.push(first);
            assert forall|m: MemberView| #[trigger] more.contains(m) <==> kept.contains(m) || m
                == first by {
                if kept.contains(m) {
                    let i = choose|i: int| 0 <= i < kept.len() && kept[i] == m;
                    assert(more[i] == m);
                }
                assert(more[kept.len() as int] == first);
            }
            lemma_keep_distinct(more, rest);
        } else {
            lemma_keep_distinct(kept, rest);
        }
    }
}

/// Deduplicating keeps every object that the archive holds, holds no object
/// twice and adds none. Archive indexes are not kept.
pub proof fn law_distinct_objects(members: Seq<MemberView>)
    ensures
        distinct_objects(members).no_duplicates(),
        forall|m: MemberView| #[trigger]
            distinct_objects(members).contains(m) <==> !names_index(m.name) && members.contains(m),
{
    lemma_keep_distinct(Seq::empty(), members);
}

proof fn lemma_keep_distinct_concat(
    kept: Seq<MemberView>,
    a: Seq<MemberView>,
    b: Seq<MemberView>,
)
    ensures
        keep_distinct(kept, a + b) == keep_distinct(keep_distinct(kept, a), b),
    decreases a.len(),
{
    if a.len() == 0 {
        assert(a + b =~= b);
    } else {
        assert((a + b).drop_first() =~= a.drop_first() + b);
        if !names_index(a[0].name) && !kept.contains(a[0]) {
            lemma_keep_distinct_concat(kept.push(a[0]), a.drop_first(), b);
        } else {
            lemma_keep_distinct_concat(kept, a.drop_first(), b);
        }
    }
}

proof fn lemma_keep_distinct_extends(kept: Seq<MemberView>, members: Seq<MemberView>)
    ensures
        kept.is_prefix_of(keep_distinct(kept, members)),
    decreases members.len(),
{
    if members.len() > 0 {
        if !names_index(members[0].name) && !kept.contains(members[0]) {
            let more = kept.push(members[0]);
            let all = keep_distinct(more, members.drop_first());
            lemma_keep_distinct_extends(more, members.drop_first());
            assert(all.subrange(0, kept.len() as int) =~= all.subrange(
                0,
                more.len() as int,
            ).subrange(0, kept.len() as int));
            assert(more.subrange(0, kept.len() as int) =~= kept);
        } else {
            lemma_keep_distinct_extends(kept, members.drop_first());
        }
    } else {
        assert(kept.subrange(0, kept.len() as int) =~= kept);
    }
}

/// Members are kept in their order: what is kept of the first members does not
/// change with the members that follow.
pub proof fn law_distinct_objects_in_order(members: Seq<MemberView>, following: Seq<MemberView>)
    ensures
        distinct_objects(members).is_prefix_of(distinct_objects(members + following)),
{
    lemma_keep_distinct_concat(Seq::empty(), members, following);
    lemma_keep_distinct_extends(distinct_objects(members), following);
}

proof fn lemma_keep_distinct_of_distinct(kept: Seq<MemberView>, members: Seq<MemberView>)
    requires
        (kept + members).no_duplicates(),
        forall|i: int| 0 <= i < members.len() ==> !names_index((#[trigger] members[i]).name),
    ensures
        keep_distinct(kept, members) == kept + members,
    decreases members.len(),
{
    if members.len() > 0 {
        let all = kept + members;
        assert(all[kept.len() as int] == members[0]);
        if kept.contains(members[0]) {
            let i = choose|i: int| 0 <= i < kept.len() && kept[i] == members[0];
            assert(all[i] == members[0]);
        }
        assert(kept.push(members[0]) + members.drop_first() =~= all);
        lemma_keep_distinct_of_distinct(kept.push(members[0]), members.drop_first());
    } else {
        assert(kept + members =~= kept);
    }
}

/// Objects among which none repeats another are all kept as they are.
pub proof fn law_distinct_objects_unchanged(members: Seq<MemberView>)
    requires
        members.no_duplicates(),
        forall|i: int| 0 <= i < members.len() ==> !names_index((#[trigger] members[i]).name),
    ensures
        distinct_objects(members) == members,
{
    assert(Seq::<MemberView>::empty() + members =~= members);
    lemma_keep_distinct_of_distinct(Seq::empty(), members);
}

/// Deduplicating twice is deduplicating once.
pub proof fn law_distinct_objects_idempotent(members: Seq<MemberView>)
    ensures
        distinct_objects(distinct_objects(members)) == distinct_objects(members),
{
    let kept = distinct_objects(members);
    law_distinct_objects(members);
    assert forall|i: int| 0 <= i < kept.len() implies !names_index((#[trigger] kept[i]).name) by {
        assert(kept.contains(kept[i]));
    }
    law_distinct_objects_unchanged(kept);
}

proof fn lemma_keep_distinct_of_kept(kept: Seq<MemberView>, members: Seq<MemberView>)
    requires
        forall|i: int|
            0 <= i < members.len() && !names_index((#[trigger] members[i]).name)
                ==> kept.contains(members[i]),
    ensures
        keep_distinct(kept, members) == kept,
    decreases members.len(),
{
    if members.len() > 0 {
        let rest = members.drop_first();
        assert(!names_index(members[0].name) ==> kept.contains(members[0]));
        assert forall|i: int|
            0 <= i < rest.len() && !names_index((#[trigger] rest[i]).name) implies kept.contains(
            rest[i],
        ) by {
            assert(rest[i] == members[i + 1]);
        }
        lemma_keep_distinct_of_kept(kept, rest);
    }
}

/// Members that only repeat earlier ones add nothing, so an archive that holds
/// its members twice over is deduplicated to what it is with them once.
pub proof fn law_repeated_members_add_nothing(
    members: Seq<MemberView>,
    repeated: Seq<MemberView>,
)
    requires
        forall|i: int| 0 <= i < repeated.len() ==> members.contains(#[trigger] repeated[i]),
    ensures
        distinct_objects(members + repeated) == distinct_objects(members),
        distinct_objects(members + members) == distinct_objects(members),
{
    law_distinct_objects(members);
    lemma_keep_distinct_concat(Seq::empty(), members, repeated);
    lemma_keep_distinct_of_kept(distinct_objects(members), repeated);
    lemma_keep_distinct_concat(Seq::empty(), members, members);
    lemma_keep_distinct_of_kept(distinct_objects(members), members);
}

/// Whatever the file system answers, a member is given up only when the answer
/// is its own contents: otherwise the next candidate is read back for it, or it
/// is written.
pub proof fn law_member_dropped_only_for_equal_bytes(
    run: RunView,
    member: MemberView,
    stored: Option<Seq<u8>>,
)
    requires
        run.current == Some(member),
        stored != Some(member.bytes),
    ensures
        ({
            let (next, action) = run.step(stored);
            ||| action is ReadBack && next.current == Some(member) && next.seen == run.seen
                && next.probe > run.probe
            ||| action == DedupeWork::<Seq<char>, Seq<u8>, Seq<Seq<char>>>::Write(
                member_file(run.seen.len(), member.name),
                member.bytes,
            )
        }),
{
    lemma_candidate(
        run.seen,
        run.probe + 1,
        member.name,
        member.bytes.len(),
        hash_of(member.bytes),
    );
}

/// The stem that names are made from: a fixed one where the archive has none that
/// is text.
pub open spec fn stem_text(stem: Option<Seq<char>>) -> Seq<char> {
    match stem {
        Some(s) => s,
        None => "staticlib"@,
    }
}

/// Runs in different processes, or on archives of different stems, spill into
/// different directories and compose different archives, and no archive is
/// named like a directory.
pub proof fn law_spill_names_differ(
    stem: Option<Seq<char>>,
    pid: nat,
    other_stem: Option<Seq<char>>,
    other_pid: nat,
)
    ensures
        pid != other_pid || stem_text(stem) != stem_text(other_stem) ==> {
            &&& spill_dir_text(stem, pid) != spill_dir_text(other_stem, other_pid)
            &&& spill_dir_text(stem, pid) + ".a"@ != spill_dir_text(other_stem, other_pid) + ".a"@
        },
        spill_dir_text(stem, pid) != spill_dir_text(other_stem, other_pid) + ".a"@,
{
    let name = spill_dir_text(stem, pid);
    let other = spill_dir_text(other_stem, other_pid);
    let p = decimal_text(pid);
    reveal_strlit(".a");
    law_decimal_text_writes_number(pid);
    assert(name.last() == p.last());
    assert(is_digit(p.last()));
    assert((other + ".a"@).last() == 'a');
    if name + ".a"@ == other + ".a"@ {
        assert(name =~= (name + ".a"@).take((name + ".a"@).len() - 2));
        assert(other =~= (other + ".a"@).take((other + ".a"@).len() - 2));
    }
    if name == other {
        lemma_spill_dir_is_unique(stem, pid, other_stem, other_pid);
    }
}

/// Processes of different ids never share a directory or an archive, whatever
/// the archive they work on is called.
pub proof fn law_processes_spill_apart(stem: Option<Seq<char>>, pid: nat, other_pid: nat)
    requires
        pid != other_pid,
    ensures
        spill_dir_text(stem, pid) != spill_dir_text(stem, other_pid),
        spill_dir_text(stem, pid) + ".a"@ != spill_dir_text(stem, other_pid) + ".a"@,
{
    law_spill_names_differ(stem, pid, stem, other_pid);
}

proof fn lemma_spill_dir_is_unique(
    stem: Option<Seq<char>>,
    pid: nat,
    other_stem: Option<Seq<char>>,
    other_pid: nat,
)
    requires
        spill_dir_text(stem, pid) == spill_dir_text(other_stem, other_pid),
    ensures
        stem_text(stem) == stem_text(other_stem),
        pid == other_pid,
{
    let name = spill_dir_text(stem, pid);
    let mark = ".dedup-"@;
    let p = decimal_text(pid);
    let q = decimal_text(other_pid);
    reveal_strlit(".dedup-");
    law_decimal_text_writes_number(pid);
    law_decimal_text_writes_number(other_pid);
    assert(name[name.len() - p.len() - 1] == '-');
    assert(name[name.len() - q.len() - 1] == '-');
    if p.len() < q.len() {
        let i = q.len() - p.len() - 1;
        assert(name[name.len() - p.len() - 1] == q[i]);
        assert(is_digit(q[i]));
    } else if q.len() < p.len() {
        let i = p.len() - q.len() - 1;
        assert(name[name.len() - q.len() - 1] == p[i]);
        assert(is_digit(p[i]));
    }
    assert(p =~= name.skip(name.len() - p.len()));
    assert(q =~= name.skip(name.len() - q.len()));
    assert(stem_text(stem) =~= name.take(name.len() - p.len() - mark.len()));
    assert(stem_text(other_stem) =~= name.take(name.len() - q.len() - mark.len()));
}

} // verus!
