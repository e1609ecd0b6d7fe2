use bundle_link::link::{
    clang_bundle_args, clang_outcome, clang_spawn_error, link_macos_bundle, link_progress,
    missing_staticlib_error, slice_extension, LinkError, LinkProgress, LinkStep, MacArch,
    CLAP_EXPORTS, MACOS_PLUGIN_FRAMEWORKS, VST2_EXPORTS, VST3_EXPORTS,
};
use bundle_link::tool::{ToolArg, ToolArgument};

fn shown(args: Vec<ToolArg>) -> Vec<String> {
    args.into_iter()
        .map(|arg| match arg {
            ToolArgument::Text(text) => text,
            ToolArgument::Archive => "<archive>".to_string(),
            ToolArgument::Output => "<output>".to_string(),
            ToolArgument::Member(file) => file,
        })
        .collect()
}

#[test]
fn clang_arguments_in_order() {
    assert_eq!(
        shown(clang_bundle_args(MacArch::Arm64, &VST2_EXPORTS, "11.0")),
        vec![
            "-bundle",
            "-arch",
            "arm64",
            "-mmacosx-version-min=11.0",
            "-Wl,-undefined,dynamic_lookup",
            "-Wl,-all_load",
            "-framework",
            "AppKit",
            "-framework",
            "Foundation",
            "-framework",
            "CoreFoundation",
            "-framework",
            "QuartzCore",
            "-framework",
            "Metal",
            "-framework",
            "AudioToolbox",
            "-framework",
            "AVFAudio",
            "-framework",
            "CoreAudio",
            "-framework",
            "CoreMIDI",
            "-framework",
            "CoreGraphics",
            "-lc++",
            "-Wl,-exported_symbol,_VSTPluginMain",
            "-Wl,-exported_symbol,_main_macho",
            "-Wl,-dead_strip",
            "<archive>",
            "-o",
            "<output>",
        ]
    );
}

#[test]
fn clang_arguments_without_exports() {
    let args = shown(clang_bundle_args(MacArch::X86_64, &[], "10.15"));
    assert_eq!(args[2], "x86_64");
    assert_eq!(args[3], "-mmacosx-version-min=10.15");
    assert_eq!(args.len(), 7 + 2 * MACOS_PLUGIN_FRAMEWORKS.len() + 4);
    assert!(args.iter().all(|arg| !arg.starts_with("-Wl,-exported_symbol")));
}

#[test]
fn every_format_exports_its_entries() {
    assert_eq!(CLAP_EXPORTS, ["_clap_entry"]);
    assert_eq!(VST2_EXPORTS, ["_VSTPluginMain", "_main_macho"]);
    assert_eq!(
        VST3_EXPORTS,
        ["_GetPluginFactory", "_BundleEntry", "_bundleEntry", "_BundleExit", "_bundleExit"]
    );
    for symbol in VST3_EXPORTS {
        let args = shown(clang_bundle_args(MacArch::Arm64, &VST3_EXPORTS, "11.0"));
        assert!(args.contains(&format!("-Wl,-exported_symbol,{}", symbol)));
    }
}

#[test]
fn clang_failures_are_reported() {
    assert_eq!(clang_outcome(true, "x.a", MacArch::Arm64, b""), Ok(()));
    assert_eq!(
        clang_outcome(false, "x.a", MacArch::X86_64, b"ld: \xc3\xa9\xff"),
        Err("clang -bundle failed for x.a (x86_64):\nld: \u{e9}\u{fffd}".to_string())
    );
    assert_eq!(clang_spawn_error("not found"), "invoking clang for bundle link: not found");
}

#[test]
fn one_archive_is_linked_directly() {
    assert_eq!(
        link_macos_bundle(&[true]),
        Ok(vec![LinkStep::CreateParent, LinkStep::LinkBundle])
    );
}

#[test]
fn several_archives_are_merged() {
    assert_eq!(
        link_macos_bundle(&[true, true]),
        Ok(vec![
            LinkStep::CreateParent,
            LinkStep::LinkSlice(0),
            LinkStep::LinkSlice(1),
            LinkStep::MergeSlices,
            LinkStep::RemoveSlice(0),
            LinkStep::RemoveSlice(1),
        ])
    );
}

#[test]
fn nothing_is_linked_unless_all_archives_are_there() {
    assert_eq!(link_macos_bundle(&[]), Err(LinkError::NoArchives));
    assert_eq!(link_macos_bundle(&[false]), Err(LinkError::MissingArchive(0)));
    assert_eq!(link_macos_bundle(&[true, false, false]), Err(LinkError::MissingArchive(1)));
    assert_eq!(
        LinkError::NoArchives.message(""),
        "link_macos_bundle: no input static archives"
    );
    assert_eq!(
        LinkError::MissingArchive(1).message("dir/lib.a"),
        "link_macos_bundle: missing static archive dir/lib.a"
    );
}

#[test]
fn only_removing_a_slice_may_fail() {
    assert!(LinkStep::CreateParent.is_required());
    assert!(LinkStep::LinkBundle.is_required());
    assert!(LinkStep::LinkSlice(0).is_required());
    assert!(LinkStep::MergeSlices.is_required());
    assert!(!LinkStep::RemoveSlice(0).is_required());
}

/// Works on the plan for `count` archives, where the steps in `failing` fail:
/// the steps that were done, and whether the bundle is linked.
fn work(count: usize, failing: &[LinkStep]) -> (Vec<LinkStep>, bool) {
    let plan = match link_macos_bundle(&vec![true; count]) {
        Ok(plan) => plan,
        Err(e) => panic!("{:?}", e),
    };
    let mut done = vec![];
    let mut succeeded = true;
    loop {
        match link_progress(&plan, done.len(), succeeded) {
            LinkProgress::Do(step) => {
                succeeded = !failing.contains(&step);
                done.push(step);
            }
            LinkProgress::Finished => return (done, true),
            LinkProgress::Failed => return (done, false),
        }
    }
}

#[test]
fn progress_is_decided_step_by_step() {
    let plan = [LinkStep::MergeSlices, LinkStep::RemoveSlice(0)];
    assert_eq!(link_progress(&plan, 0, true), LinkProgress::Do(LinkStep::MergeSlices));
    assert_eq!(link_progress(&plan, 0, false), LinkProgress::Do(LinkStep::MergeSlices));
    assert_eq!(link_progress(&plan, 1, true), LinkProgress::Do(LinkStep::RemoveSlice(0)));
    assert_eq!(link_progress(&plan, 1, false), LinkProgress::Failed);
    assert_eq!(link_progress(&plan, 2, true), LinkProgress::Finished);
    assert_eq!(link_progress(&plan, 2, false), LinkProgress::Finished);
    assert_eq!(link_progress(&plan, 3, false), LinkProgress::Finished);
    assert_eq!(link_progress(&[], 0, true), LinkProgress::Finished);
}

#[test]
fn a_failed_slice_ends_the_work() {
    assert_eq!(
        work(3, &[LinkStep::LinkSlice(1)]),
        (
            vec![LinkStep::CreateParent, LinkStep::LinkSlice(0), LinkStep::LinkSlice(1)],
            false
        )
    );
}

#[test]
fn a_failed_merge_ends_the_work() {
    assert_eq!(
        work(2, &[LinkStep::MergeSlices]),
        (
            vec![
                LinkStep::CreateParent,
                LinkStep::LinkSlice(0),
                LinkStep::LinkSlice(1),
                LinkStep::MergeSlices,
            ],
            false
        )
    );
}

#[test]
fn failed_removals_are_passed_over() {
    let (done, linked) = work(2, &[LinkStep::RemoveSlice(0), LinkStep::RemoveSlice(1)]);
    assert_eq!(done.len(), 6);
    assert!(linked);
}

#[test]
fn one_archive_fails_with_its_link() {
    assert_eq!(
        work(1, &[LinkStep::LinkBundle]),
        (vec![LinkStep::CreateParent, LinkStep::LinkBundle], false)
    );
    assert_eq!(work(1, &[LinkStep::CreateParent]), (vec![LinkStep::CreateParent], false));
    assert_eq!(work(1, &[]).1, true);
}

#[test]
fn slices_are_named_by_triple() {
    assert_eq!(slice_extension("aarch64-apple-darwin"), "aarch64-apple-darwin-slice");
}

#[test]
fn a_missing_staticlib_is_explained() {
    let lines = [
        "macOS bundle link needs a Rust staticlib at",
        "  target/libplug.a",
        "but cargo didn't emit one.",
        "",
        "Starting with truce 0.44.0, macOS bundle formats (CLAP / VST3 / VST2) are linked from `lib<stem>.a` via `clang -bundle`. Plugins scaffolded before 0.44.0 only declared `[\"cdylib\", \"rlib\"]` and need to add `\"staticlib\"` to the `crate-type` array in their plugin crate's `Cargo.toml`.",
        "",
        "Exact change:",
        "",
        "# before",
        "[lib]",
        "crate-type = [\"cdylib\", \"rlib\"]",
        "",
        "# after",
        "[lib]",
        "crate-type = [\"cdylib\", \"staticlib\", \"rlib\"]",
        "",
        "Then re-run the failing command.",
    ];
    assert_eq!(missing_staticlib_error("target/libplug.a"), lines.join("\n"));
}
