//! Linking static archives into one bundle binary.
//!
//! A bundle's loader takes a Mach-O bundle and nothing else, so the archive is
//! linked through `clang -bundle`, once for each architecture, and the slices
//! are merged into one binary.

use vstd::prelude::*;

use crate::text::{lossy_text, decoded_text};
use crate::tool::{arg_views, push_arg, push_text, ArgView, ToolArg, ToolArgument};

verus! {

/// Symbols a CLAP bundle must export so that the host finds its descriptors.
pub const CLAP_EXPORTS: [&'static str; 1] = ["_clap_entry"];

/// Symbols a VST3 bundle must export: the factory, and the entry and exit
/// callbacks in both spellings.
pub const VST3_EXPORTS: [&'static str; 5] = [
    "_GetPluginFactory",
    "_BundleEntry",
    "_bundleEntry",
    "_BundleExit",
    "_bundleExit",
];

/// Symbols a VST2 bundle must export: the entry, and the alias that older hosts
/// look for.
pub const VST2_EXPORTS: [&'static str; 2] = ["_VSTPluginMain", "_main_macho"];

/// System frameworks the bundle needs at load time.
pub const MACOS_PLUGIN_FRAMEWORKS: [&'static str; 10] = [
    "AppKit",
    "Foundation",
    "CoreFoundation",
    "QuartzCore",
    "Metal",
    "AudioToolbox",
    "AVFAudio",
    "CoreAudio",
    "CoreMIDI",
    "CoreGraphics",
];

/// The architectures a bundle can be linked for.
#[derive(Debug, Clone, Copy, PartialEq, Eq, Structural)]
pub enum MacArch {
    Arm64,
    X86_64,
}

impl MacArch {
    /// How the linker calls the architecture.
    pub open spec fn flag_text(self) -> Seq<char> {
        match self {
            MacArch::Arm64 => "arm64"@,
            MacArch::X86_64 => "x86_64"@,
        }
    }

    /// How the linker calls the architecture.
    pub fn flag(self) -> (flag: &'static str)
        ensures
            flag@ == self.flag_text(),
    {
        match self {
            MacArch::Arm64 => "arm64",
            MacArch::X86_64 => "x86_64",
        }
    }
}

/// The texts of a sequence of string slices.
pub open spec fn strs(slices: Seq<&str>) -> Seq<Seq<char>> {
    slices.map_values(|s: &str| s@)
}

/// The arguments that link the frameworks of these names.
pub open spec fn framework_args(names: Seq<Seq<char>>) -> Seq<ArgView> {
    Seq::new(
        2 * names.len(),
        |i: int|
            if i % 2 == 0 {
                ArgView::Text("-framework"@)
            } else {
                ArgView::Text(names[i / 2])
            },
    )
}

/// The arguments that keep the symbols of these names in the bundle.
pub open spec fn export_args(symbols: Seq<Seq<char>>) -> Seq<ArgView> {
    symbols.map_values(|symbol: Seq<char>| ArgView::Text("-Wl,-exported_symbol,"@ + symbol))
}

/// The arguments that make `clang` link an archive into a bundle.
pub open spec fn bundle_args(
    arch: MacArch,
    exports: Seq<Seq<char>>,
    deployment_target: Seq<char>,
) -> Seq<ArgView> {
    seq![
        ArgView::Text("-bundle"@),
        ArgView::Text("-arch"@),
        ArgView::Text(arch.flag_text()),
        ArgView::Text("-mmacosx-version-min="@ + deployment_target),
        ArgView::Text("-Wl,-undefined,dynamic_lookup"@),
        ArgView::Text("-Wl,-all_load"@),
    ] + framework_args(strs(MACOS_PLUGIN_FRAMEWORKS@)) + seq![ArgView::Text("-lc++"@)]
        + export_args(exports) + seq![
        ArgView::Text("-Wl,-dead_strip"@),
        ArgView::Archive,
        ArgView::Text("-o"@),
        ArgView::Output,
    ]
}

/// Appends the arguments that link the system frameworks.
fn push_frameworks(args: &mut Vec<ToolArg>)
    ensures
        arg_views(final(args)@) == arg_views(old(args)@) + framework_args(
            strs(MACOS_PLUGIN_FRAMEWORKS@),
        ),
{
    let frameworks = MACOS_PLUGIN_FRAMEWORKS;
    let ghost before = arg_views(args@);
    let ghost all = framework_args(strs(MACOS_PLUGIN_FRAMEWORKS@));
    let mut i: usize = 0;
    while i < 10
        invariant
            i <= 10,
            frameworks == MACOS_PLUGIN_FRAMEWORKS,
            all == framework_args(strs(MACOS_PLUGIN_FRAMEWORKS@)),
            all.len() == 20,
            arg_views(args@) =~= before + all.take(2 * i),
        decreases 10 - i,
    {
        push_text(args, "-framework");
        push_text(args, frameworks[i]);
        assert(all[2 * i] == ArgView::Text("-framework"@));
        assert(all[2 * i + 1] == ArgView::Text(frameworks@[i as int]@));
        i = i + 1;
    }
    assert(all.take(20) =~= all);
}

/// Appends the arguments that keep `exports` in the bundle.
fn push_exports(args: &mut Vec<ToolArg>, exports: &[&str])
    ensures
        arg_views(final(args)@) == arg_views(old(args)@) + export_args(strs(exports@)),
{
    let ghost before = arg_views(args@);
    let ghost all = export_args(strs(exports@));
    let mut i: usize = 0;
    while i < exports.len()
        invariant
            i <= exports@.len(),
            all == export_args(strs(exports@)),
            arg_views(args@) =~= before + all.take(i as int),
        decreases exports.len() - i,
    {
        let mut arg = "-Wl,-exported_symbol,".to_owned();
        arg.append(exports[i]);
        push_arg(args, ToolArgument::Text(arg));
        assert(all[i as int] == ArgView::Text("-Wl,-exported_symbol,"@ + exports@[i as int]@));
        i = i + 1;
    }
    assert(all.take(i as int) =~= all);
}

/// Lists the arguments that make `clang` link an archive into a bundle for
/// `arch`. Every object of the archive is loaded, the symbols in `exports` are
/// kept, and what they do not reach is stripped.
pub fn clang_bundle_args(arch: MacArch, exports: &[&str], deployment_target: &str) -> (args: Vec<
    ToolArg,
>)
    ensures
        arg_views(args@) == bundle_args(arch, strs(exports@), deployment_target@),
{
    let mut args: Vec<ToolArg> = Vec::new();
    assert(arg_views(args@) =~= Seq::empty());
    push_text(&mut args, "-bundle");
    push_text(&mut args, "-arch");
    push_text(&mut args, arch.flag());
    let mut version = "-mmacosx-version-min=".to_owned();
    version.append(deployment_target);
    push_arg(&mut args, ToolArgument::Text(version));
    push_text(&mut args, "-Wl,-undefined,dynamic_lookup");
    push_text(&mut args, "-Wl,-all_load");
    push_frameworks(&mut args);
    push_text(&mut args, "-lc++");
    push_exports(&mut args, exports);
    push_text(&mut args, "-Wl,-dead_strip");
    push_arg(&mut args, ToolArgument::Archive);
    push_text(&mut args, "-o");
    push_arg(&mut args, ToolArgument::Output);
    assert(arg_views(args@) =~= bundle_args(arch, strs(exports@), deployment_target@));
    args
}

/// Reports that `clang` could not be run.
pub fn clang_spawn_error(cause: &str) -> (text: String)
    ensures
        text@ == "invoking clang for bundle link: "@ + cause@,
{
    let mut text = "invoking clang for bundle link: ".to_owned();
    text.append(cause);
    text
}

/// Judges how `clang` ended on the archive shown as `archive`; a failure is
/// reported with what `clang` wrote to its error stream.
pub fn clang_outcome(success: bool, archive: &str, arch: MacArch, stderr: &[u8]) -> (outcome:
    Result<(), String>)
    ensures
        outcome is Ok <==> success,
        outcome matches Err(text) ==> text@ == "clang -bundle failed for "@ + archive@ + " ("@
            + arch.flag_text() + "):\n"@ + decoded_text(stderr@),
{
    if success {
        return Ok(());
    }
    let mut text = "clang -bundle failed for ".to_owned();
    text.append(archive);
    text.append(" (");
    text.append(arch.flag());
    text.append("):\n");
    text.append(lossy_text(stderr).as_str());
    Err(text)
}

/// One step of linking a bundle. Archives and slices go by their number.
#[derive(Debug, Clone, Copy, PartialEq, Eq, Structural)]
pub enum LinkStep {
    /// Create the directory that the bundle binary goes into.
    CreateParent,
    /// Link the only archive straight into the bundle binary.
    LinkBundle,
    /// Link the archive into a slice next to the bundle binary.
    LinkSlice(usize),
    /// Merge the slices, in order, into the bundle binary.
    MergeSlices,
    /// Remove the slice.
    RemoveSlice(usize),
}

impl LinkStep {
    /// Whether linking ends with the step's error when the step fails. Only a
    /// slice that cannot be removed is passed over.
    pub open spec fn must_succeed(self) -> bool {
        !(self is RemoveSlice)
    }

    /// Tells whether linking ends with the step's error when the step fails.
    pub fn is_required(self) -> (required: bool)
        ensures
            required == self.must_succeed(),
    {
        match self {
            LinkStep::RemoveSlice(_) => false,
            _ => true,
        }
    }
}

/// Why a bundle cannot be linked at all.
#[derive(Debug, Clone, Copy, PartialEq, Eq, Structural)]
pub enum LinkError {
    /// There are no archives to link.
    NoArchives,
    /// The archive of this number does not exist.
    MissingArchive(usize),
}

impl LinkError {
    /// The sentence that reports the error; `archive` is how the path of the
    /// archive in question is shown.
    pub open spec fn text(self, archive: Seq<char>) -> Seq<char> {
        match self {
            LinkError::NoArchives => "link_macos_bundle: no input static archives"@,
            LinkError::MissingArchive(_) => "link_macos_bundle: missing static archive "@ + archive,
        }
    }

    /// Reports the error in a sentence.
    pub fn message(self, archive: &str) -> (text: String)
        ensures
            text@ == self.text(archive@),
    {
        match self {
            LinkError::NoArchives => "link_macos_bundle: no input static archives".to_owned(),
            LinkError::MissingArchive(_) => {
                let mut text = "link_macos_bundle: missing static archive ".to_owned();
                text.append(archive);
                text
            },
        }
    }
}

/// The steps that link `count` archives into a bundle.
pub open spec fn link_steps(count: nat) -> Seq<LinkStep> {
    if count == 1 {
        seq![LinkStep::CreateParent, LinkStep::LinkBundle]
    } else {
        seq![LinkStep::CreateParent] + Seq::new(count, |i: int| LinkStep::LinkSlice(i as usize))
            + seq![LinkStep::MergeSlices] + Seq::new(
            count,
            |i: int| LinkStep::RemoveSlice(i as usize),
        )
    }
}

/// Plans how to link a bundle from archives, of which `present` tells one by one
/// whether they exist. Nothing is done unless all of them do.
pub fn link_macos_bundle(present: &[bool]) -> (plan: Result<Vec<LinkStep>, LinkError>)
    ensures
        match plan {
            Err(LinkError::NoArchives) => present@.len() == 0,
            Err(LinkError::MissingArchive(i)) => {
                &&& i < present@.len()
                &&& !present@[i as int]
                &&& forall|j: int| 0 <= j < i ==> #[trigger] present@[j]
            },
            Ok(steps) => {
                &&& present@.len() > 0
                &&& forall|j: int| 0 <= j < present@.len() ==> #[trigger] present@[j]
                &&& steps@ == link_steps(present@.len())
            },
        },
{
    if present.len() == 0 {
        return Err(LinkError::NoArchives);
    }
    let count: usize = present.len();
    let mut i: usize = 0;
    while i < count
        invariant
            i <= count == present@.len(),
            forall|j: int| 0 <= j < i ==> #[trigger] present@[j],
        decreases count - i,
    {
        if !present[i] {
            return Err(LinkError::MissingArchive(i));
        }
        i = i + 1;
    }
    let mut steps: Vec<LinkStep> = Vec::new();
    steps.push(LinkStep::CreateParent);
    if count == 1 {
        steps.push(LinkStep::LinkBundle);
        assert(steps@ =~= link_steps(1));
        return Ok(steps);
    }
    let ghost parent = seq![LinkStep::CreateParent];
    let ghost link = Seq::new(count as nat, |i: int| LinkStep::LinkSlice(i as usize));
    let ghost remove = Seq::new(count as nat, |i: int| LinkStep::RemoveSlice(i as usize));
    let mut k: usize = 0;
    while k < count
        invariant
            k <= count,
            link == Seq::new(count as nat, |i: int| LinkStep::LinkSlice(i as usize)),
            steps@ =~= parent + link.take(k as int),
        decreases count - k,
    {
        steps.push(LinkStep::LinkSlice(k));
        k = k + 1;
    }
    steps.push(LinkStep::MergeSlices);
    let ghost merged = parent + link + seq![LinkStep::MergeSlices];
    assert(link.take(k as int) =~= link);
    assert(steps@ =~= merged);
    let mut k: usize = 0;
    while k < count
        invariant
            k <= count,
            remove == Seq::new(count as nat, |i: int| LinkStep::RemoveSlice(i as usize)),
            steps@ =~= merged + remove.take(k as int),
        decreases count - k,
    {
        steps.push(LinkStep::RemoveSlice(k));
        k = k + 1;
    }
    assert(remove.take(k as int) =~= remove);
    assert(steps@ =~= link_steps(count as nat));
    Ok(steps)
}

/// Where the work on a plan stands.
#[derive(Debug, Clone, Copy, PartialEq, Eq, Structural)]
pub enum LinkProgress {
    /// This step is to be done next.
    Do(LinkStep),
    /// The bundle is linked.
    Finished,
    /// Linking ends with the error of the step that was done last.
    Failed,
}

/// Where the work on `steps` stands when the first `at` of them have been done,
/// the last of these with success or without.
pub open spec fn progress(steps: Seq<LinkStep>, at: nat, succeeded: bool) -> LinkProgress {
    if 0 < at <= steps.len() && !succeeded && steps[at - 1].must_succeed() {
        LinkProgress::Failed
    } else if at < steps.len() {
        LinkProgress::Do(steps[at as int])
    } else {
        LinkProgress::Finished
    }
}

/// Decides how to go on with `steps` when the first `at` of them have been done,
/// the last of these with success or without.
pub fn link_progress(steps: &[LinkStep], at: usize, succeeded: bool) -> (next: LinkProgress)
    ensures
        next == progress(steps@, at as nat, succeeded),
{
    if 0 < at && at <= steps.len() && !succeeded && steps[at - 1].is_required() {
        LinkProgress::Failed
    } else if at < steps.len() {
        LinkProgress::Do(steps[at])
    } else {
        LinkProgress::Finished
    }
}

/// Names the file extension of the slice for a target triple.
pub fn slice_extension(triple: &str) -> (extension: String)
    ensures
        extension@ == triple@ + "-slice"@,
{
    let mut extension = triple.to_owned();
    extension.append("-slice");
    extension
}

/// What is said of a missing archive before its path.
pub const MISSING_STATICLIB_HEAD: &'static str =
    "macOS bundle link needs a Rust staticlib at\n  ";

/// What is said of a missing archive after its path: why it is missing, and the
/// one line that has to change.
pub const MISSING_STATICLIB_TAIL: &'static str = "\n\
    but cargo didn't emit one.\n\
    \n\
    Starting with truce 0.44.0, macOS bundle formats (CLAP / VST3 / VST2) \
    are linked from `lib<stem>.a` via `clang -bundle`. Plugins scaffolded \
    before 0.44.0 only declared `[\"cdylib\", \"rlib\"]` and need to add \
    `\"staticlib\"` to the `crate-type` array in their plugin crate's \
    `Cargo.toml`.\n\
    \n\
    Exact change:\n\
    \n\
    # before\n\
    [lib]\n\
    crate-type = [\"cdylib\", \"rlib\"]\n\
    \n\
    # after\n\
    [lib]\n\
    crate-type = [\"cdylib\", \"staticlib\", \"rlib\"]\n\
    \n\
    Then re-run the failing command.";

/// Reports that no static archive was built at the path shown as
/// `staticlib_path`, and how to have it built.
pub fn missing_staticlib_error(staticlib_path: &str) -> (text: String)
    ensures
        text@ == MISSING_STATICLIB_HEAD@ + staticlib_path@ + MISSING_STATICLIB_TAIL@,
{
    let mut text = MISSING_STATICLIB_HEAD.to_owned();
    text.append(staticlib_path);
    text.append(MISSING_STATICLIB_TAIL);
    text
}

} // verus!
