//! Mode selection from parsed command-line options, and the usage line. The
//! surrounding process parses flags; this decides what they mean: mode flags
//! are mutually exclusive with last-flag-wins semantics.

use crate::resolve::ModeView;
use crate::resolve::TargetMode;
use vstd::prelude::*;
use vstd::string::StringExecFns;

verus! {

/// One parsed mode-selecting option: a named file, or one of the global,
/// internal, and root modes.
pub enum CliOpt {
    File(String),
    Global,
    Internal,
    Root,
}

/// The mathematical value of a `CliOpt`.
pub enum OptView {
    File(Seq<char>),
    Global,
    Internal,
    Root,
}

impl View for CliOpt {
    type V = OptView;

    open spec fn view(&self) -> OptView {
        match self {
            CliOpt::File(name) => OptView::File(name@),
            CliOpt::Global => OptView::Global,
            CliOpt::Internal => OptView::Internal,
            CliOpt::Root => OptView::Root,
        }
    }
}

/// The mathematical values of a sequence of parsed options.
pub open spec fn opt_views(os: Seq<CliOpt>) -> Seq<OptView> {
    os.map_values(|o: CliOpt| o@)
}

/// Each mode-selecting option unconditionally overwrites the current mode.
pub open spec fn step_mode(m: ModeView, o: OptView) -> ModeView {
    match o {
        OptView::File(name) => ModeView::ExplicitFile(name),
        OptView::Global => ModeView::Global,
        OptView::Internal => ModeView::Internal,
        OptView::Root => ModeView::Root,
    }
}

/// The mode left standing after folding the options over an initial mode:
/// the last option wins.
pub open spec fn mode_after(init: ModeView, os: Seq<OptView>) -> ModeView
    decreases os.len(),
{
    if os.len() == 0 {
        init
    } else {
        step_mode(mode_after(init, os.drop_last()), os.last())
    }
}

/// Without any mode flag, patterns go to `.gitignore` in the current
/// directory.
pub open spec fn default_mode() -> ModeView {
    ModeView::ExplicitFile(".gitignore"@)
}

/// Fold the parsed options into the active mode, as `mode_after` describes:
/// each option overwrites the mode, so the last one given wins.
pub fn select_mode(opts: &Vec<CliOpt>) -> (m: TargetMode)
    ensures
        m@ == mode_after(default_mode(), opt_views(opts@)),
{
    let mut m = TargetMode::ExplicitFile(String::from_str(".gitignore"));
    let mut i: usize = 0;
    proof {
        assert(opt_views(opts@).take(0) =~= Seq::<OptView>::empty());
    }
    while i < opts.len()
        invariant
            0 <= i <= opts@.len(),
            m@ == mode_after(default_mode(), opt_views(opts@).take(i as int)),
        decreases opts@.len() - i,
    {
        proof {
            let stepped = opt_views(opts@).take(i + 1);
            assert(stepped =~= opt_views(opts@).take(i as int).push(opt_views(opts@)[i as int]));
            assert(stepped.drop_last() =~= opt_views(opts@).take(i as int));
            assert(stepped.last() == opt_views(opts@)[i as int]);
            assert(opt_views(opts@)[i as int] == opts@[i as int]@);
        }
        match &opts[i] {
            CliOpt::File(name) => {
                m = TargetMode::ExplicitFile(name.clone());
            },
            CliOpt::Global => {
                m = TargetMode::Global;
            },
            CliOpt::Internal => {
                m = TargetMode::Internal;
            },
            CliOpt::Root => {
                m = TargetMode::Root;
            },
        }
        i = i + 1;
    }
    proof {
        assert(opt_views(opts@).take(opts@.len() as int) =~= opt_views(opts@));
    }
    m
}

/// The one-line usage summary for the program's help and error output.
pub fn usage_line(program_name: &str) -> (r: String)
    ensures
        r@ == "Usage: "@ + program_name@ + " [-h] [-gir] [-f FILE] pattern [pattern ...]"@,
{
    let mut s = String::from_str("Usage: ");
    s.append(program_name);
    s.append(" [-h] [-gir] [-f FILE] pattern [pattern ...]");
    s
}

} // verus!
