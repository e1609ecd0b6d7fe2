//! Arguments of the command line tools that a bundle is linked with.

use vstd::prelude::*;

verus! {

/// One argument of a tool. `Text` is `String` in code and `Seq<char>` in
/// contracts. The paths themselves are for the caller to fill in.
#[derive(Debug, PartialEq, Eq)]
pub enum ToolArgument<Text> {
    /// The text itself.
    Text(Text),
    /// The path of the archive.
    Archive,
    /// The path of the binary to link.
    Output,
    /// The path of the file of this name, in the directory of the kept members.
    Member(Text),
}

/// A [`ToolArgument`] as code holds it.
pub type ToolArg = ToolArgument<String>;

/// A [`ToolArgument`] as contracts speak of it.
pub type ArgView = ToolArgument<Seq<char>>;

impl View for ToolArgument<String> {
    type V = ToolArgument<Seq<char>>;

    open spec fn view(&self) -> ToolArgument<Seq<char>> {
        match *self {
            ToolArgument::Text(text) => ToolArgument::Text(text@),
            ToolArgument::Archive => ToolArgument::Archive,
            ToolArgument::Output => ToolArgument::Output,
            ToolArgument::Member(file) => ToolArgument::Member(file@),
        }
    }
}

/// What a sequence of arguments stands for.
pub open spec fn arg_views(args: Seq<ToolArg>) -> Seq<ArgView> {
    args.map_values(|arg: ToolArg| arg@)
}

/// Appends `arg`.
pub(crate) fn push_arg(args: &mut Vec<ToolArg>, arg: ToolArg)
    ensures
        arg_views(final(args)@) == arg_views(old(args)@).push(arg@),
{
    let ghost before = arg_views(args@);
    args.push(arg);
    assert(arg_views(args@) =~= before.push(arg@));
}

/// Appends the argument `text`.
pub(crate) fn push_text(args: &mut Vec<ToolArg>, text: &str)
    ensures
        arg_views(final(args)@) == arg_views(old(args)@).push(ToolArgument::Text(text@)),
{
    push_arg(args, ToolArgument::Text(text.to_owned()));
}

} // verus!
