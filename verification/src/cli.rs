//! The command-line option surface, as plain data: which stages of the
//! pipeline (rewriting, turtle interpretation, graphics) a run uses.

use vstd::prelude::*;

verus! {

/// The options a run is driven by.  The mode flags are mutually exclusive
/// at the argument-parsing boundary; the derived stage predicates below
/// are what the rest of the program consults.
pub struct Opt {
    /// The number of times to iterate the rewriting system.
    pub iterations: usize,
    /// File from which to read the system; input comes from standard input
    /// when absent.
    pub file: Option<String>,
    /// Directory to offer a choice of files from.
    pub dir: Option<String>,
    /// Run in an interactive loop, prompting for each next generation.
    pub interactive: bool,
    /// Produce verbose output.
    pub verbose: bool,
    /// Output the generated model without rendering graphics.
    pub output_model: bool,
    /// Output the generated symbol string without interpreting or
    /// rendering it.
    pub output_lsystem: bool,
    /// Input a model and render it, skipping generation and
    /// interpretation.
    pub input_graphics_model: bool,
}

impl Opt {
    /// Whether the run renders graphics: it does unless the model or the
    /// symbol string is the requested output.
    pub fn use_graphics(&self) -> (r: bool)
        ensures
            r == !(self.output_model || self.output_lsystem),
    {
        !(self.output_model || self.output_lsystem)
    }

    /// Whether the run interprets the string as turtle commands: it does
    /// unless the symbol string is the requested output or a ready model
    /// is the input.
    pub fn use_turtle(&self) -> (r: bool)
        ensures
            r == (!self.output_lsystem && !self.input_graphics_model),
    {
        !self.output_lsystem && !self.input_graphics_model
    }

    /// Whether the run generates the rewriting system at all: it does
    /// unless a ready model is the input.
    pub fn use_lsystem(&self) -> (r: bool)
        ensures
            r == !self.input_graphics_model,
    {
        !self.input_graphics_model
    }
}

} // verus!
