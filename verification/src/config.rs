//! The command line.

use crate::text::{same_text, text_of, views};
use vstd::prelude::*;

verus! {

/// How the entries of the overlay are laid out.
#[derive(Copy, Clone, Debug, Eq, PartialEq, Structural)]
pub enum Layout {
    /// Side by side.
    Horizontal,
    /// One below the other.
    Vertical,
}

impl Default for Layout {
    fn default() -> (r: Self)
        ensures
            r == Layout::Horizontal,
    {
        Layout::Horizontal
    }
}

/// What the command line asks for.
pub struct CliOptions {
    pub layout: Layout,
}

/// Why a command line is refused.
#[derive(Debug)]
pub enum CliError {
    /// The option `-c` or `--css`, which is gone.
    CssUnsupported,
    /// An argument that is no option.
    UnknownOption(String),
}

/// What one argument means.
pub enum Argument {
    /// It selects a layout.
    Layout(Layout),
    /// It asks for a style sheet.
    Css,
    /// It means nothing.
    Unknown,
}

/// The meaning of the argument `arg`.
pub open spec fn argument(arg: Seq<char>) -> Argument {
    if arg == "-h"@ || arg == "--horizontal"@ {
        Argument::Layout(Layout::Horizontal)
    } else if arg == "-v"@ || arg == "--vertical"@ {
        Argument::Layout(Layout::Vertical)
    } else if arg == "-c"@ || arg == "--css"@ {
        Argument::Css
    } else {
        Argument::Unknown
    }
}

/// The position of the first argument from `i` on that selects no layout, or
/// the number of arguments.
pub open spec fn first_refused(args: Seq<Seq<char>>, i: int) -> int
    decreases args.len() - i,
{
    if i >= args.len() {
        args.len() as int
    } else if argument(args[i]) is Layout {
        first_refused(args, i + 1)
    } else {
        i
    }
}

/// The layout that the last of the arguments selects, or the default one.
pub open spec fn chosen_layout(args: Seq<Seq<char>>) -> Layout {
    if args.len() == 0 {
        Layout::Horizontal
    } else {
        argument(args.last())->Layout_0
    }
}

impl CliError {
    /// The text of the error message.
    pub open spec fn text(self) -> Seq<char> {
        match self {
            CliError::CssUnsupported =>
                "--css is no longer supported, use ~/.config/xwitcher/style.css"@,
            CliError::UnknownOption(arg) => "unknown option: "@ + arg@,
        }
    }

    /// The text of the error message.
    pub fn message(&self) -> (r: String)
        ensures
            r@ == self.text(),
    {
        match self {
            CliError::CssUnsupported => text_of(
                "--css is no longer supported, use ~/.config/xwitcher/style.css",
            ),
            CliError::UnknownOption(arg) => text_of("unknown option: ").concat(arg.as_str()),
        }
    }
}

impl CliOptions {
    /// Reads the arguments that follow the program's name. Each layout option
    /// overrides the ones before it, and the first argument that is none is the
    /// error.
    pub fn parse(args: Vec<String>) -> (r: Result<Self, CliError>)
        ensures
            ({
                let views = views(args@);
                let at = first_refused(views, 0);
                if at == views.len() {
                    r matches Ok(options) && options.layout == chosen_layout(views)
                } else if argument(views[at]) is Css {
                    r matches Err(CliError::CssUnsupported)
                } else {
                    r matches Err(CliError::UnknownOption(arg)) && arg@ == views[at]
                }
            }),
    {
        let mut layout = Layout::default();
        let mut i: usize = 0;
        let ghost views = views(args@);
        while i < args.len()
            invariant
                i <= args@.len(),
                views == crate::text::views(args@),
                first_refused(views, 0) == first_refused(views, i as int),
                layout == chosen_layout(views.take(i as int)),
            decreases args@.len() - i,
        {
            let arg = args[i].as_str();
            proof {
                assert(views[i as int] == arg@);
                assert(views.take(i + 1).last() == arg@);
            }
            if same_text(arg, "-h") || same_text(arg, "--horizontal") {
                layout = Layout::Horizontal;
            } else if same_text(arg, "-v") || same_text(arg, "--vertical") {
                layout = Layout::Vertical;
            } else if same_text(arg, "-c") || same_text(arg, "--css") {
                return Err(CliError::CssUnsupported);
            } else {
                return Err(CliError::UnknownOption(text_of(arg)));
            }
            i = i + 1;
        }
        proof {
            assert(views.take(views.len() as int) =~= views);
        }
        Ok(CliOptions { layout })
    }
}

/// Whether an argument is one of the four that select a layout.
pub open spec fn selects_layout(arg: Seq<char>) -> bool {
    seq!["-h"@, "--horizontal"@, "-v"@, "--vertical"@].contains(arg)
}

/// The last argument decides between the layouts: the long and the short option of
/// each mean the same, and without arguments the overlay is horizontal. The first
/// argument that selects no layout is the one that is refused.
pub proof fn the_last_option_decides(args: Seq<Seq<char>>, i: int)
    requires
        0 <= i < args.len(),
        forall|k: int| 0 <= k < i ==> selects_layout(#[trigger] args[k]),
    ensures
        chosen_layout(Seq::empty()) is Horizontal,
        args.last() == "-h"@ || args.last() == "--horizontal"@ ==> chosen_layout(args) is Horizontal,
        args.last() == "-v"@ || args.last() == "--vertical"@ ==> chosen_layout(args) is Vertical,
        !selects_layout(args[i]) ==> first_refused(args, 0) == i,
        selects_layout(args[i]) ==> first_refused(args, 0) > i,
        argument(args[i]) is Css <==> args[i] == "-c"@ || args[i] == "--css"@,
{
    lemma_options();
    lemma_refused(args, 0, i);
}

/// The options are told apart, and those for a layout are the four.
proof fn lemma_options()
    ensures
        argument("-h"@) == Argument::Layout(Layout::Horizontal),
        argument("--horizontal"@) == Argument::Layout(Layout::Horizontal),
        argument("-v"@) == Argument::Layout(Layout::Vertical),
        argument("--vertical"@) == Argument::Layout(Layout::Vertical),
        argument("-c"@) is Css,
        argument("--css"@) is Css,
        forall|arg: Seq<char>| #[trigger] argument(arg) is Layout <==> selects_layout(arg),
{
    reveal_strlit("-h");
    reveal_strlit("--horizontal");
    reveal_strlit("-v");
    reveal_strlit("--vertical");
    reveal_strlit("-c");
    reveal_strlit("--css");
    let all = seq!["-h"@, "--horizontal"@, "-v"@, "--vertical"@];
    assert(all[0] == "-h"@ && all[1] == "--horizontal"@ && all[2] == "-v"@ && all[3]
        == "--vertical"@);
    assert("-h"@[1] == 'h' && "-v"@[1] == 'v' && "-c"@[1] == 'c');
    assert("--horizontal"@.len() == 12 && "--vertical"@.len() == 10 && "--css"@.len() == 5);
    assert forall|arg: Seq<char>| #[trigger] argument(arg) is Layout <==> selects_layout(arg) by {
        if selects_layout(arg) {
            let i = choose|i: int| 0 <= i < all.len() && all[i] == arg;
            assert(argument(all[i]) is Layout);
        }
        if argument(arg) is Layout {
            assert(all.contains(arg));
        }
    }
}

proof fn lemma_refused(args: Seq<Seq<char>>, from: int, i: int)
    requires
        0 <= from <= i < args.len(),
        forall|k: int| from <= k < i ==> selects_layout(#[trigger] args[k]),
    ensures
        !selects_layout(args[i]) ==> first_refused(args, from) == i,
        selects_layout(args[i]) ==> first_refused(args, from) > i,
    decreases i - from,
{
    lemma_options();
    assert(argument(args[from]) is Layout <==> selects_layout(args[from]));
    if from < i {
        lemma_refused(args, from + 1, i);
    } else {
        lemma_refused_is_behind(args, i + 1);
    }
}

proof fn lemma_refused_is_behind(args: Seq<Seq<char>>, from: int)
    requires
        0 <= from <= args.len(),
    ensures
        first_refused(args, from) >= from,
    decreases args.len() - from,
{
    if from < args.len() && argument(args[from]) is Layout {
        lemma_refused_is_behind(args, from + 1);
    }
}

} // verus!
