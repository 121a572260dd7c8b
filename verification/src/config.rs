//! Rewriter configuration.

use vstd::prelude::*;

verus! {

/// How to select among matching rules when multiple rules match.
#[derive(Debug, Clone, Copy)]
pub enum SelectionStrategy {
    /// Apply the first matching rule (ordered by rule index).
    FirstMatch,
    /// Weighted random selection among all matching rules.
    WeightedRandom,
    /// Apply all non-overlapping matches simultaneously (Markov Junior style).
    Parallel,
}

impl Default for SelectionStrategy {
    fn default() -> (r: Self)
        ensures
            r == SelectionStrategy::WeightedRandom,
    {
        Self::WeightedRandom
    }
}

/// How to handle multiple matches of the same rule.
#[derive(Debug, Clone, Copy)]
pub enum ApplicationMode {
    /// Pick one match (using SelectionStrategy).
    Single,
    /// Apply to all non-overlapping matches.
    AllNonOverlapping,
}

impl Default for ApplicationMode {
    fn default() -> (r: Self)
        ensures
            r == ApplicationMode::Single,
    {
        Self::Single
    }
}

/// Configuration for the rewriter.
#[derive(Debug, Clone)]
pub struct RewriterConfig {
    /// Maximum rule applications before stopping.
    pub max_steps: usize,
    /// Rule selection strategy.
    pub selection: SelectionStrategy,
    /// Application mode.
    pub application: ApplicationMode,
}

impl Default for RewriterConfig {
    fn default() -> (r: Self)
        ensures
            r.max_steps == 10_000,
            r.selection == SelectionStrategy::WeightedRandom,
            r.application == ApplicationMode::Single,
    {
        Self {
            max_steps: 10_000,
            selection: SelectionStrategy::default(),
            application: ApplicationMode::default(),
        }
    }
}

impl RewriterConfig {
    /// The default configuration: 10 000 steps, weighted random selection,
    /// single application.
    pub fn new() -> (r: Self)
        ensures
            r.max_steps == 10_000,
            r.selection == SelectionStrategy::WeightedRandom,
            r.application == ApplicationMode::Single,
    {
        Self::default()
    }

    pub fn max_steps(self, n: usize) -> (r: Self)
        ensures
            r.max_steps == n,
            r.selection == self.selection,
            r.application == self.application,
    {
        let mut c = self;
        c.max_steps = n;
        c
    }

    pub fn selection(self, s: SelectionStrategy) -> (r: Self)
        ensures
            r.max_steps == self.max_steps,
            r.selection == s,
            r.application == self.application,
    {
        let mut c = self;
        c.selection = s;
        c
    }

    pub fn application(self, a: ApplicationMode) -> (r: Self)
        ensures
            r.max_steps == self.max_steps,
            r.selection == self.selection,
            r.application == a,
    {
        let mut c = self;
        c.application = a;
        c
    }
}

} // verus!
