//! Stacking options: where a stack of series sits, and in what order the
//! series pile up.

use vstd::prelude::*;

verus! {

/// Where a stack sits on its value axis.
#[derive(Debug, Clone, Copy, PartialEq, Eq, Structural)]
pub enum StackOffset {
    /// From the zero baseline: positive values accumulate upward, negative
    /// values downward, each sign on its own side (the default).
    Zero,
    /// Each position's positive bands scaled to fill `[0, 1]` and its
    /// negative bands `[-1, 0]` — the 100 % stack.
    Normalize,
    /// Bands accumulate in order from zero, then every position shifts so
    /// its stack is centered on zero — the silhouette of a streamgraph.
    Center,
}

impl Default for StackOffset {
    fn default() -> (o: StackOffset)
        ensures
            o == StackOffset::Zero,
    {
        StackOffset::Zero
    }
}

/// The order series pile up in.
#[derive(Debug, Clone, Copy, PartialEq, Eq, Structural)]
pub enum StackOrder {
    /// As given: the first series at the baseline (the default).
    Input,
    /// By descending total: the largest series at the baseline.
    Sum,
}

impl Default for StackOrder {
    fn default() -> (o: StackOrder)
        ensures
            o == StackOrder::Input,
    {
        StackOrder::Input
    }
}

/// How a stack is built: its offset and its order.
#[derive(Debug, Clone, Copy, PartialEq, Eq, Structural)]
pub struct StackOptions {
    /// Where the stack sits on its axis.
    pub offset: StackOffset,
    /// The order series pile up in.
    pub order: StackOrder,
}

impl StackOptions {
    /// The zero baseline in input order.
    pub fn new() -> (o: StackOptions)
        ensures
            o == (StackOptions { offset: StackOffset::Zero, order: StackOrder::Input }),
    {
        StackOptions { offset: StackOffset::Zero, order: StackOrder::Input }
    }

    /// Sets the offset.
    pub fn offset(self, offset: StackOffset) -> (o: StackOptions)
        ensures
            o == (StackOptions { offset, ..self }),
    {
        StackOptions { offset, order: self.order }
    }

    /// Sets the stacking order.
    pub fn order(self, order: StackOrder) -> (o: StackOptions)
        ensures
            o == (StackOptions { order, ..self }),
    {
        StackOptions { offset: self.offset, order }
    }
}

impl Default for StackOptions {
    fn default() -> (o: StackOptions)
        ensures
            o == (StackOptions { offset: StackOffset::Zero, order: StackOrder::Input }),
    {
        StackOptions::new()
    }
}

/// Where a step changes between two samples.
#[derive(Debug, Clone, Copy, PartialEq, Eq, Structural)]
pub enum StepDirection {
    /// Hold each value until the next sample: the change happens at the
    /// next x (the default).
    Post,
    /// Take each value from the previous sample on: the change happens at
    /// the previous x.
    Pre,
    /// Change halfway between samples.
    Mid,
}

impl Default for StepDirection {
    fn default() -> (d: StepDirection)
        ensures
            d == StepDirection::Post,
    {
        StepDirection::Post
    }
}

} // verus!
