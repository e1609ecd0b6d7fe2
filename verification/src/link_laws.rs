//! What linking a bundle comes to, whichever of its steps fail.

use vstd::prelude::*;

use crate::link::{
    bundle_args, clang_bundle_args, clang_outcome, clang_spawn_error, link_macos_bundle,
    link_progress, link_steps, missing_staticlib_error, progress, slice_extension, strs, LinkError,
    LinkProgress, LinkStep, MacArch, MACOS_PLUGIN_FRAMEWORKS, MISSING_STATICLIB_TAIL,
};
use crate::text::decoded_text;
use crate::text_laws::{is_text_of, law_text_is_decoded};
use crate::tool::{arg_views, ArgView, ToolArg, ToolArgument};

verus! {

/// How the work on a plan ended: how many of its steps were done, and whether
/// the bundle is linked.
pub struct LinkEnd {
    pub done: nat,
    pub linked: bool,
}

/// How the work on `steps` ends from where it stands, when `outcomes` tells of
/// each step whether it succeeds if it is done.
pub open spec fn link_end(
    steps: Seq<LinkStep>,
    outcomes: Seq<bool>,
    at: nat,
    succeeded: bool,
) -> LinkEnd
    decreases steps.len() - at,
{
    match progress(steps, at, succeeded) {
        LinkProgress::Failed => LinkEnd { done: at, linked: false },
        LinkProgress::Finished => LinkEnd { done: at, linked: true },
        LinkProgress::Do(_) => link_end(steps, outcomes, at + 1, outcomes[at as int]),
    }
}

/// The steps that are carried out from where the work on `steps` stands.
pub open spec fn carried_out(
    steps: Seq<LinkStep>,
    outcomes: Seq<bool>,
    at: nat,
    succeeded: bool,
) -> Seq<LinkStep>
    decreases steps.len() - at,
{
    match progress(steps, at, succeeded) {
        LinkProgress::Do(step) => if at < steps.len() {
            seq![step] + carried_out(steps, outcomes, at + 1, outcomes[at as int])
        } else {
            seq![step]
        },
        _ => Seq::empty(),
    }
}

/// How the work on `steps` ends from its beginning.
pub open spec fn link_run(steps: Seq<LinkStep>, outcomes: Seq<bool>) -> LinkEnd {
    link_end(steps, outcomes, 0, true)
}

/// Every symbol to export is named to the linker, after all objects are loaded
/// and before what is not reached is stripped.
pub proof fn law_exports_are_kept(
    arch: MacArch,
    exports: Seq<Seq<char>>,
    deployment_target: Seq<char>,
    symbol: int,
)
    requires
        0 <= symbol < exports.len(),
    ensures
        ({
            let args = bundle_args(arch, exports, deployment_target);
            exists|load: int, keep: int, strip: int|
                0 <= load < keep < strip < args.len() && #[trigger] args[load] == ArgView::Text(
                    "-Wl,-all_load"@,
                ) && #[trigger] args[keep] == ArgView::Text(
                    "-Wl,-exported_symbol,"@ + exports[symbol],
                ) && #[trigger] args[strip] == ArgView::Text("-Wl,-dead_strip"@)
        }),
{
    let args = bundle_args(arch, exports, deployment_target);
    let first = 7 + 2 * MACOS_PLUGIN_FRAMEWORKS@.len();
    assert(args[5] == ArgView::Text("-Wl,-all_load"@));
    assert(args[first + symbol] == ArgView::Text("-Wl,-exported_symbol,"@ + exports[symbol]));
    assert(args[(first + exports.len()) as int] == ArgView::Text("-Wl,-dead_strip"@));
}

/// Every system framework is linked, so that the bundle also loads in a process
/// that has none of them mapped.
pub proof fn law_frameworks_are_linked(
    arch: MacArch,
    exports: Seq<Seq<char>>,
    deployment_target: Seq<char>,
    framework: int,
)
    requires
        0 <= framework < MACOS_PLUGIN_FRAMEWORKS@.len(),
    ensures
        ({
            let args = bundle_args(arch, exports, deployment_target);
            exists|i: int|
                0 <= i < args.len() - 1 && #[trigger] args[i] == ArgView::Text("-framework"@)
                    && args[i + 1] == ArgView::Text(MACOS_PLUGIN_FRAMEWORKS@[framework]@)
        }),
{
    let args = bundle_args(arch, exports, deployment_target);
    assert(args[6 + 2 * framework] == ArgView::Text("-framework"@));
    assert(args[6 + 2 * framework + 1] == ArgView::Text(MACOS_PLUGIN_FRAMEWORKS@[framework]@));
}

/// With several archives each is linked into a slice of its own exactly once,
/// the slices are merged after the last of them is linked, and each slice is
/// removed exactly once, after the merge.
pub proof fn law_slices_are_merged_and_removed(count: nat, slice: nat)
    requires
        1 < count <= usize::MAX,
        slice < count,
    ensures
        link_steps(count).no_duplicates(),
        exists|link: int, merge: int, remove: int|
            0 <= link < merge < remove < link_steps(count).len() && #[trigger] link_steps(
                count,
            )[link] == LinkStep::LinkSlice(slice as usize) && #[trigger] link_steps(count)[merge]
                == LinkStep::MergeSlices && #[trigger] link_steps(count)[remove]
                == LinkStep::RemoveSlice(slice as usize),
{
    let steps = link_steps(count);
    assert(steps[(1 + slice) as int] == LinkStep::LinkSlice(slice as usize));
    assert(steps[(1 + count) as int] == LinkStep::MergeSlices);
    assert(steps[(2 + count + slice) as int] == LinkStep::RemoveSlice(slice as usize));
}

/// Whether step `i` ends the work: it does not succeed, and is not the removal of
/// a slice.
pub open spec fn stops_at(steps: Seq<LinkStep>, outcomes: Seq<bool>, i: int) -> bool {
    !(steps[i] is RemoveSlice) && !outcomes[i]
}

proof fn lemma_link_end(steps: Seq<LinkStep>, outcomes: Seq<bool>, at: nat, succeeded: bool)
    requires
        outcomes.len() == steps.len(),
        at <= steps.len(),
        at > 0 ==> succeeded == outcomes[at - 1],
        forall|i: int| 0 <= i < at - 1 ==> !#[trigger] stops_at(steps, outcomes, i),
    ensures
        ({
            let end = link_end(steps, outcomes, at, succeeded);
            &&& at <= end.done <= steps.len()
            &&& forall|i: int| 0 <= i < end.done - 1 ==> !#[trigger] stops_at(steps, outcomes, i)
            &&& end.linked ==> end.done == steps.len() && forall|i: int|
                0 <= i < steps.len() ==> !#[trigger] stops_at(steps, outcomes, i)
            &&& !end.linked ==> end.done > 0 && stops_at(steps, outcomes, end.done - 1)
        }),
    decreases steps.len() - at,
{
    if at > 0 && stops_at(steps, outcomes, at - 1) {
    } else if at < steps.len() {
        assert forall|i: int| 0 <= i < at implies !#[trigger] stops_at(steps, outcomes, i) by {}
        lemma_link_end(steps, outcomes, at + 1, outcomes[at as int]);
    } else {
        assert forall|i: int| 0 <= i < steps.len() implies !#[trigger] stops_at(
            steps,
            outcomes,
            i,
        ) by {}
    }
}

/// Steps are done in order up to the first that has to succeed and does not; the
/// work fails exactly where there is one, and nothing is done after it. Without
/// one every step is done.
pub proof fn law_work_stops_at_first_failure(steps: Seq<LinkStep>, outcomes: Seq<bool>)
    requires
        outcomes.len() == steps.len(),
    ensures
        ({
            let end = link_run(steps, outcomes);
            &&& end.linked <==> forall|i: int|
                0 <= i < steps.len() ==> !#[trigger] stops_at(steps, outcomes, i)
            &&& end.linked ==> end.done == steps.len()
            &&& !end.linked ==> 0 < end.done <= steps.len() && stops_at(
                steps,
                outcomes,
                end.done - 1,
            )
            &&& forall|i: int| 0 <= i < end.done - 1 ==> !#[trigger] stops_at(steps, outcomes, i)
        }),
{
    lemma_link_end(steps, outcomes, 0, true);
}

/// After a slice that cannot be linked no other slice is linked, nothing is
/// merged and nothing is removed: linking that slice is the last step done, and
/// the work fails.
pub proof fn law_failed_slice_ends_the_work(count: nat, outcomes: Seq<bool>, slice: nat)
    requires
        1 < count <= usize::MAX,
        outcomes.len() == link_steps(count).len(),
        slice < count,
        forall|i: int| 0 <= i <= slice ==> #[trigger] outcomes[i],
        !outcomes[1 + slice as int],
    ensures
        ({
            let steps = link_steps(count);
            let end = link_run(steps, outcomes);
            &&& !end.linked
            &&& end.done == 2 + slice
            &&& steps[end.done - 1] == LinkStep::LinkSlice(slice as usize)
            &&& forall|i: int|
                0 <= i < end.done ==> {
                    &&& #[trigger] steps[i] != LinkStep::MergeSlices
                    &&& !(steps[i] is RemoveSlice)
                    &&& steps[i] matches LinkStep::LinkSlice(n) ==> n <= slice
                }
        }),
{
    let steps = link_steps(count);
    let end = link_run(steps, outcomes);
    law_work_stops_at_first_failure(steps, outcomes);
    assert(steps[1 + slice as int] == LinkStep::LinkSlice(slice as usize));
    assert(stops_at(steps, outcomes, 1 + slice as int));
    if end.done < 2 + slice {
        assert(outcomes[end.done - 1]);
    }
}

/// After a merge that fails no slice is removed: the merge is the last step done,
/// and the work fails.
pub proof fn law_failed_merge_ends_the_work(count: nat, outcomes: Seq<bool>)
    requires
        1 < count <= usize::MAX,
        outcomes.len() == link_steps(count).len(),
        forall|i: int| 0 <= i <= count ==> #[trigger] outcomes[i],
        !outcomes[1 + count as int],
    ensures
        ({
            let steps = link_steps(count);
            let end = link_run(steps, outcomes);
            &&& !end.linked
            &&& end.done == 2 + count
            &&& steps[end.done - 1] == LinkStep::MergeSlices
            &&& forall|i: int| 0 <= i < end.done ==> !(#[trigger] steps[i] is RemoveSlice)
        }),
{
    let steps = link_steps(count);
    let end = link_run(steps, outcomes);
    law_work_stops_at_first_failure(steps, outcomes);
    assert(steps[1 + count as int] == LinkStep::MergeSlices);
    assert(stops_at(steps, outcomes, 1 + count as int));
    if end.done < 2 + count {
        assert(outcomes[end.done - 1]);
    }
}

/// A slice is removed only once the merge has succeeded.
pub proof fn law_slices_are_removed_after_a_good_merge(
    count: nat,
    outcomes: Seq<bool>,
    step: int,
)
    requires
        1 < count <= usize::MAX,
        outcomes.len() == link_steps(count).len(),
        0 <= step < link_run(link_steps(count), outcomes).done,
        link_steps(count)[step] is RemoveSlice,
    ensures
        exists|merge: int|
            0 <= merge < step && #[trigger] link_steps(count)[merge] == LinkStep::MergeSlices
                && outcomes[merge],
{
    let steps = link_steps(count);
    law_work_stops_at_first_failure(steps, outcomes);
    assert(steps[1 + count as int] == LinkStep::MergeSlices);
    assert(!stops_at(steps, outcomes, 1 + count as int));
}

/// Slices that cannot be removed never fail the link: whether the bundle is
/// linked depends on the other steps alone, and once these succeed every removal
/// is tried.
pub proof fn law_failed_removals_are_passed_over(count: nat, outcomes: Seq<bool>)
    requires
        0 < count <= usize::MAX,
        outcomes.len() == link_steps(count).len(),
    ensures
        link_run(link_steps(count), outcomes).linked <==> forall|i: int|
            0 <= i < link_steps(count).len() && !(#[trigger] link_steps(count)[i] is RemoveSlice)
                ==> outcomes[i],
        link_run(link_steps(count), outcomes).linked ==> link_run(link_steps(count), outcomes).done
            == link_steps(count).len(),
{
    let steps = link_steps(count);
    law_work_stops_at_first_failure(steps, outcomes);
    if link_run(steps, outcomes).linked {
        assert forall|i: int|
            0 <= i < steps.len() && !(#[trigger] steps[i] is RemoveSlice) implies outcomes[i] by {
            assert(!stops_at(steps, outcomes, i));
        }
    }
}

proof fn lemma_carried_out(steps: Seq<LinkStep>, outcomes: Seq<bool>, at: nat, succeeded: bool)
    requires
        at <= steps.len(),
    ensures
        ({
            let done = link_end(steps, outcomes, at, succeeded).done;
            &&& at <= done <= steps.len()
            &&& carried_out(steps, outcomes, at, succeeded) == steps.subrange(
                at as int,
                done as int,
            )
        }),
    decreases steps.len() - at,
{
    if let LinkProgress::Do(step) = progress(steps, at, succeeded) {
        let done = link_end(steps, outcomes, at, succeeded).done;
        lemma_carried_out(steps, outcomes, at + 1, outcomes[at as int]);
        assert(seq![step] + steps.subrange(at + 1int, done as int) =~= steps.subrange(
            at as int,
            done as int,
        ));
    }
}

/// The steps that are carried out are the first steps of the plan, in its order,
/// and no others.
pub proof fn law_work_carries_out_the_plan(steps: Seq<LinkStep>, outcomes: Seq<bool>)
    ensures
        carried_out(steps, outcomes, 0, true) == steps.take(link_run(steps, outcomes).done as int),
{
    lemma_carried_out(steps, outcomes, 0, true);
    let done = link_run(steps, outcomes).done;
    assert(steps.subrange(0, done as int) =~= steps.take(done as int));
}

/// Work goes on with the step of the plan whose turn it is, and with no other. It
/// fails exactly when the step before was no removal of a slice and did not
/// succeed, and is finished only when every step has been done.
pub proof fn law_link_progress(
    steps: &[LinkStep],
    at: usize,
    succeeded: bool,
    next: LinkProgress,
)
    requires
        call_ensures(link_progress, (steps, at, succeeded), next),
    ensures
        next is Failed <==> 0 < at <= steps@.len() && !succeeded && !(steps@[at
            - 1] is RemoveSlice),
        next matches LinkProgress::Do(step) ==> at < steps@.len() && step == steps@[at as int],
        next is Finished ==> at >= steps@.len(),
{
}

/// Whether work on `steps` does `done`, step by step, and then ends with `end`,
/// when `outcomes` tells of each step done whether it succeeded.
pub open spec fn works(
    steps: &[LinkStep],
    outcomes: Seq<bool>,
    done: Seq<LinkStep>,
    end: LinkProgress,
) -> bool {
    &&& outcomes.len() == done.len() <= usize::MAX
    &&& forall|k: int|
        0 <= k < done.len() ==> call_ensures(
            link_progress,
            (steps, k as usize, k == 0 || outcomes[k - 1]),
            LinkProgress::Do(#[trigger] done[k]),
        )
    &&& call_ensures(
        link_progress,
        (steps, done.len() as usize, done.len() == 0 || outcomes.last()),
        end,
    )
    &&& !(end is Do)
}

/// Work does the first steps of the plan in its order. It is finished once it has
/// done them all, and fails exactly at the first step that does not succeed and is
/// no removal of a slice.
pub proof fn law_plan_is_worked_off(
    steps: &[LinkStep],
    outcomes: Seq<bool>,
    done: Seq<LinkStep>,
    end: LinkProgress,
)
    requires
        works(steps, outcomes, done, end),
    ensures
        done.len() <= steps@.len(),
        done == steps@.take(done.len() as int),
        end is Finished ==> done == steps@,
        end is Failed <==> done.len() > 0 && stops_at(steps@, outcomes, done.len() - 1),
        forall|i: int| 0 <= i < done.len() - 1 ==> !#[trigger] stops_at(steps@, outcomes, i),
{
    let n = done.len() as int;
    assert forall|k: int| 0 <= k < n implies k < steps@.len() && #[trigger] done[k]
        == steps@[k] by {
        law_link_progress(
            steps,
            k as usize,
            k == 0 || outcomes[k - 1],
            LinkProgress::Do(done[k]),
        );
    }
    assert(n > 0 ==> done[n - 1] == steps@[n - 1]);
    assert(done =~= steps@.take(n));
    law_link_progress(steps, n as usize, n == 0 || outcomes.last(), end);
    if end is Finished {
        assert(steps@.take(n) =~= steps@);
    }
    assert forall|i: int| 0 <= i < n - 1 implies !#[trigger] stops_at(steps@, outcomes, i) by {
        assert(done[i + 1] == steps@[i + 1]);
        law_link_progress(steps, (i + 1) as usize, outcomes[i], LinkProgress::Do(done[i + 1]));
    }
}

/// A bundle is planned exactly when there are archives and all of them exist, and
/// else the first missing one is reported. One archive is linked straight into
/// the bundle. Several are linked into slices, one for each in order, the slices
/// are merged, and then each is removed. Nothing else is planned.
pub proof fn law_link_macos_bundle(present: &[bool], plan: Result<Vec<LinkStep>, LinkError>)
    requires
        call_ensures(link_macos_bundle, (present,), plan),
    ensures
        plan is Ok <==> present@.len() > 0 && !present@.contains(false),
        plan matches Err(LinkError::NoArchives) ==> present@.len() == 0,
        plan matches Err(LinkError::MissingArchive(i)) ==> {
            &&& i < present@.len()
            &&& !present@[i as int]
            &&& !present@.take(i as int).contains(false)
        },
        plan matches Ok(steps) ==> {
            let n = present@.len() as int;
            &&& steps@[0] == LinkStep::CreateParent
            &&& n == 1 ==> steps@.len() == 2 && steps@[1] == LinkStep::LinkBundle
            &&& n > 1 ==> {
                &&& steps@.len() == 2 * n + 2
                &&& forall|i: int|
                    1 <= i <= n ==> #[trigger] steps@[i] == LinkStep::LinkSlice((i - 1) as usize)
                &&& steps@[n + 1] == LinkStep::MergeSlices
                &&& forall|i: int|
                    n + 2 <= i < 2 * n + 2 ==> #[trigger] steps@[i] == LinkStep::RemoveSlice(
                        (i - n - 2) as usize,
                    )
            }
        },
{
    if let Ok(steps) = plan {
        if present@.contains(false) {
            let i = choose|i: int| 0 <= i < present@.len() && present@[i] == false;
            assert(present@[i]);
        }
        assert(steps@ == link_steps(present@.len()));
    }
    if let Err(LinkError::MissingArchive(i)) = plan {
        assert(present@.contains(present@[i as int]));
        let before = present@.take(i as int);
        if before.contains(false) {
            let j = choose|j: int| 0 <= j < before.len() && before[j] == false;
            assert(present@[j]);
        }
    }
}

/// Several archives that all link and merge make a universal bundle: the steps
/// done are all slices, the merge, and all removals, however the removals end; and
/// the bundle is linked from the merge alone.
pub proof fn law_universal_bundle_is_merged(
    present: &[bool],
    plan: Vec<LinkStep>,
    steps: &[LinkStep],
    outcomes: Seq<bool>,
    done: Seq<LinkStep>,
    end: LinkProgress,
)
    requires
        call_ensures(link_macos_bundle, (present,), Ok::<Vec<LinkStep>, LinkError>(plan)),
        present@.len() > 1,
        steps@ == plan@,
        works(steps, outcomes, done, end),
        forall|i: int|
            0 <= i < outcomes.len() && i <= present@.len() + 1 ==> #[trigger] outcomes[i],
    ensures
        end is Finished,
        done == plan@,
        !done.contains(LinkStep::LinkBundle),
        done[1 + present@.len() as int] == LinkStep::MergeSlices,
        forall|i: int|
            0 <= i < present@.len() ==> {
                &&& done[1 + i] == LinkStep::LinkSlice(i as usize)
                &&& #[trigger] done[2 + present@.len() + i] == LinkStep::RemoveSlice(i as usize)
            },
{
    law_link_macos_bundle(present, Ok(plan));
    law_plan_is_worked_off(steps, outcomes, done, end);
    let n = present@.len() as int;
    let last = done.len() - 1;
    if end is Failed {
        if last <= n + 1 {
            assert(outcomes[last]);
        } else {
            assert(plan@[last] is RemoveSlice);
        }
    }
    assert forall|i: int| 0 <= i < done.len() implies done[i] != LinkStep::LinkBundle by {
        if 1 <= i <= n {
            assert(plan@[i] is LinkSlice);
        } else if i >= n + 2 {
            assert(plan@[i] is RemoveSlice);
        }
    }
    assert forall|i: int| 0 <= i < n implies {
        &&& done[1 + i] == LinkStep::LinkSlice(i as usize)
        &&& #[trigger] done[2 + n + i] == LinkStep::RemoveSlice(i as usize)
    } by {
        assert(plan@[1 + i] == LinkStep::LinkSlice(i as usize));
        assert(plan@[2 + n + i] == LinkStep::RemoveSlice(i as usize));
    }
}

/// Only the removal of a slice may fail.
pub proof fn law_only_removals_may_fail(step: LinkStep, required: bool)
    requires
        call_ensures(LinkStep::is_required, (step,), required),
    ensures
        required <==> !(step is RemoveSlice),
{
}

/// Whether `arg` is this text.
pub open spec fn says(arg: ToolArg, text: Seq<char>) -> bool {
    arg matches ToolArgument::Text(said) && said@ == text
}

/// The frameworks that a plugin needs when it is loaded.
pub open spec fn needed_frameworks() -> Seq<Seq<char>> {
    seq![
        "AppKit"@,
        "Foundation"@,
        "CoreFoundation"@,
        "QuartzCore"@,
        "Metal"@,
        "AudioToolbox"@,
        "AVFAudio"@,
        "CoreAudio"@,
        "CoreMIDI"@,
        "CoreGraphics"@,
    ]
}

/// Whether the arguments from `at` on link the framework `name`.
pub open spec fn links_framework(args: Seq<ToolArg>, at: int, name: Seq<char>) -> bool {
    says(args[at], "-framework"@) && says(args[at + 1], name)
}

/// Each architecture goes by its own name.
pub proof fn law_architectures_are_named(arch: MacArch, flag: &'static str)
    requires
        call_ensures(MacArch::flag, (arch,), flag),
    ensures
        arch is Arm64 ==> flag@ == "arm64"@,
        arch is X86_64 ==> flag@ == "x86_64"@,
{
}

/// For every architecture, every list of exports and every deployment target,
/// `clang` is told to make a bundle, for that architecture and that target, with
/// open symbols left to the loader, with every object of the archive loaded, with
/// every framework and the C++ library linked, with every export kept, with the
/// rest stripped, from the archive, and into the output. It is told nothing else.
pub proof fn law_clang_bundle_args(
    arch: MacArch,
    exports: &[&str],
    deployment_target: &str,
    args: Vec<ToolArg>,
)
    requires
        call_ensures(clang_bundle_args, (arch, exports, deployment_target), args),
    ensures
        args@.len() == 31 + exports@.len(),
        says(args@[0], "-bundle"@),
        says(args@[1], "-arch"@),
        arch is Arm64 ==> says(args@[2], "arm64"@),
        arch is X86_64 ==> says(args@[2], "x86_64"@),
        says(args@[3], "-mmacosx-version-min="@ + deployment_target@),
        says(args@[4], "-Wl,-undefined,dynamic_lookup"@),
        says(args@[5], "-Wl,-all_load"@),
        forall|i: int|
            0 <= i < 10 ==> links_framework(args@, 6 + 2 * i, #[trigger] needed_frameworks()[i]),
        says(args@[26], "-lc++"@),
        forall|i: int|
            0 <= i < exports@.len() ==> says(
                args@[27 + i],
                "-Wl,-exported_symbol,"@ + #[trigger] exports@[i]@,
            ),
        says(args@[args@.len() - 4], "-Wl,-dead_strip"@),
        args@[args@.len() - 3] is Archive,
        says(args@[args@.len() - 2], "-o"@),
        args@[args@.len() - 1] is Output,
{
    let views = arg_views(args@);
    let n = exports@.len() as int;
    assert(views == bundle_args(arch, strs(exports@), deployment_target@));
    assert(views.len() == args@.len());
    assert forall|i: int| 0 <= i < args@.len() implies #[trigger] views[i] == args@[i]@ by {}
    assert(views[0] == ArgView::Text("-bundle"@));
    assert(views[1] == ArgView::Text("-arch"@));
    assert(views[2] == ArgView::Text(arch.flag_text()));
    assert(views[3] == ArgView::Text("-mmacosx-version-min="@ + deployment_target@));
    assert(views[4] == ArgView::Text("-Wl,-undefined,dynamic_lookup"@));
    assert(views[5] == ArgView::Text("-Wl,-all_load"@));
    assert forall|i: int| 0 <= i < 10 implies links_framework(
        args@,
        6 + 2 * i,
        #[trigger] needed_frameworks()[i],
    ) by {
        assert(MACOS_PLUGIN_FRAMEWORKS@[i]@ == needed_frameworks()[i]);
        assert(views[6 + 2 * i] == ArgView::Text("-framework"@));
        assert(views[7 + 2 * i] == ArgView::Text(needed_frameworks()[i]));
    }
    assert(views[26] == ArgView::Text("-lc++"@));
    assert forall|i: int| 0 <= i < n implies says(
        args@[27 + i],
        "-Wl,-exported_symbol,"@ + #[trigger] exports@[i]@,
    ) by {
        assert(views[27 + i] == ArgView::Text("-Wl,-exported_symbol,"@ + exports@[i]@));
    }
    assert(views[27 + n] == ArgView::Text("-Wl,-dead_strip"@));
    assert(views[28 + n] == ArgView::Archive);
    assert(views[29 + n] == ArgView::Text("-o"@));
    assert(views[30 + n] == ArgView::Output);
}

/// The archive is linked exactly once, and so is the output written; no other
/// file is named to the linker.
pub proof fn law_one_archive_is_linked_into_one_output(
    arch: MacArch,
    exports: &[&str],
    deployment_target: &str,
    args: Vec<ToolArg>,
    i: int,
)
    requires
        call_ensures(clang_bundle_args, (arch, exports, deployment_target), args),
        0 <= i < args@.len(),
    ensures
        args@[i] is Archive <==> i == args@.len() - 3,
        args@[i] is Output <==> i == args@.len() - 1,
        !(args@[i] is Member),
{
    law_clang_bundle_args(arch, exports, deployment_target, args);
    if 6 <= i < 26 {
        let k = (i - 6) / 2;
        assert(links_framework(args@, 6 + 2 * k, needed_frameworks()[k]));
    } else if 27 <= i < 27 + exports@.len() {
        assert(says(args@[27 + (i - 27)], "-Wl,-exported_symbol,"@ + exports@[i - 27]@));
    }
}

/// Builds for different architectures get the same arguments but for the name of
/// the architecture, which differs.
pub proof fn law_builds_differ_where_asked(
    arch: MacArch,
    exports: &[&str],
    deployment_target: &str,
    args: Vec<ToolArg>,
    other_arch: MacArch,
    other_args: Vec<ToolArg>,
    i: int,
)
    requires
        call_ensures(clang_bundle_args, (arch, exports, deployment_target), args),
        call_ensures(clang_bundle_args, (other_arch, exports, deployment_target), other_args),
        0 <= i < args@.len(),
    ensures
        args@.len() == other_args@.len(),
        i != 2 ==> args@[i]@ == other_args@[i]@,
        arch != other_arch ==> args@[2]@ != other_args@[2]@,
{
    reveal_strlit("arm64");
    reveal_strlit("x86_64");
    law_clang_bundle_args(arch, exports, deployment_target, args);
    law_clang_bundle_args(other_arch, exports, deployment_target, other_args);
    assert("arm64"@.len() != "x86_64"@.len());
    assert(args@[2]@ == ArgView::Text(arch.flag_text()));
    assert(other_args@[2]@ == ArgView::Text(other_arch.flag_text()));
    if 6 <= i < 26 {
        let k = (i - 6) / 2;
        assert(links_framework(args@, 6 + 2 * k, needed_frameworks()[k]));
    } else if 27 <= i < 27 + exports@.len() {
        let j = i - 27;
        assert(says(args@[27 + j], "-Wl,-exported_symbol,"@ + exports@[j]@));
    }
}

/// A link succeeds exactly when `clang` does. A failed one is reported with the
/// archive, the architecture and all that `clang` wrote.
pub proof fn law_clang_outcome(
    success: bool,
    archive: &str,
    arch: MacArch,
    stderr: &[u8],
    outcome: Result<(), String>,
)
    requires
        call_ensures(clang_outcome, (success, archive, arch, stderr), outcome),
    ensures
        outcome is Ok <==> success,
        outcome matches Err(text) ==> exists|written: Seq<char>| #[trigger]
            is_text_of(stderr@, written) && text@ == "clang -bundle failed for "@ + archive@
                + match arch {
                MacArch::Arm64 => " (arm64):\n"@,
                MacArch::X86_64 => " (x86_64):\n"@,
            } + written,
{
    law_text_is_decoded(stderr@);
    if let Err(text) = outcome {
        let written = decoded_text(stderr@);
        reveal_strlit(" (");
        reveal_strlit("):\n");
        reveal_strlit("arm64");
        reveal_strlit("x86_64");
        reveal_strlit(" (arm64):\n");
        reveal_strlit(" (x86_64):\n");
        assert(is_text_of(stderr@, written));
        match arch {
            MacArch::Arm64 => {
                assert(" (arm64):\n"@ =~= " ("@ + "arm64"@ + "):\n"@);
            },
            MacArch::X86_64 => {
                assert(" (x86_64):\n"@ =~= " ("@ + "x86_64"@ + "):\n"@);
            },
        }
        assert(text@ =~= "clang -bundle failed for "@ + archive@ + match arch {
            MacArch::Arm64 => " (arm64):\n"@,
            MacArch::X86_64 => " (x86_64):\n"@,
        } + written);
    }
}

/// That `clang` cannot be run is reported with the cause.
pub proof fn law_clang_spawn_error(cause: &str, text: String)
    requires
        call_ensures(clang_spawn_error, (cause,), text),
    ensures
        text@ == "invoking clang for bundle link: "@ + cause@,
{
}

/// A missing archive is reported with its path.
pub proof fn law_link_error(error: LinkError, archive: &str, text: String)
    requires
        call_ensures(LinkError::message, (error, archive), text),
    ensures
        error is NoArchives ==> text@ == "link_macos_bundle: no input static archives"@,
        error is MissingArchive ==> text@ == "link_macos_bundle: missing static archive "@
            + archive@,
{
}

/// The slice of a target is named by its whole triple, so that slices of different
/// targets lie in different files.
pub proof fn law_slice_extension(
    triple: &str,
    extension: String,
    other_triple: &str,
    other_extension: String,
)
    requires
        call_ensures(slice_extension, (triple,), extension),
        call_ensures(slice_extension, (other_triple,), other_extension),
    ensures
        extension@ == triple@ + "-slice"@,
        extension@ == other_extension@ ==> triple@ == other_triple@,
{
    let mark = "-slice"@;
    assert(triple@ =~= extension@.take(extension@.len() - mark.len()));
    assert(other_triple@ =~= other_extension@.take(other_extension@.len() - mark.len()));
}

/// The report on a missing archive shows its whole path, behind the words that
/// ask for it, and says the same of every path.
pub proof fn law_missing_staticlib_error(staticlib_path: &str, text: String)
    requires
        call_ensures(missing_staticlib_error, (staticlib_path,), text),
    ensures
        text@ == "macOS bundle link needs a Rust staticlib at\n  "@ + staticlib_path@
            + MISSING_STATICLIB_TAIL@,
{
}

} // verus!
