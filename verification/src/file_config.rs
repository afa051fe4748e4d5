//! Tunable BPANN parameters stored under `[bpann]` in the configuration file:
//! their compiled-in defaults, their validity rules and the resolution of the
//! hard pending cap.

use vstd::prelude::*;

verus! {

/// Default hard cap on pending observations.
pub const PENDING_HARD: usize = 3000;

/// Tunable BPANN parameters persisted under `[bpann]` in the config file.
#[derive(Debug, Clone, Copy, PartialEq, Eq, Structural)]
pub struct BpannConfig {
    pub index_fragment: usize,
    pub index_max: usize,
    pub search_fragment: usize,
    pub fragment_rows: usize,
    pub search_limit: usize,
    /// When set, used as the k-means build seed; otherwise the batch start row is used.
    pub build_seed: Option<u64>,
    /// Rows of pending observations before an index flush is scheduled.
    pub soft_threshold: usize,
    /// Hard pending cap. `None` means the key was absent from the file;
    /// it resolves to the larger of `PENDING_HARD` and the soft threshold.
    pub hard_threshold: Option<usize>,
    /// Batch size at or below which builds use a single row-ID leaf.
    pub structured_limit: usize,
    /// Beam width used during approximate tree traversal.
    pub search_width: usize,
    /// Max indexed rows using exhaustive leaf search.
    pub exhaustive_limit: usize,
    /// Max indexed rows using skip-refinement search.
    pub skip_limit: usize,
}

/// The compiled-in defaults.
pub open spec fn default_bpann() -> BpannConfig {
    BpannConfig {
        index_fragment: 10_000,
        index_max: 32,
        search_fragment: 80_000,
        fragment_rows: 15_000,
        search_limit: 1,
        build_seed: None,
        soft_threshold: 250,
        hard_threshold: Some(3000),
        structured_limit: 1024,
        search_width: 1,
        exhaustive_limit: 2500,
        skip_limit: 150_000,
    }
}

/// The hard pending cap that `c` resolves to.
pub open spec fn resolved_hard(c: BpannConfig) -> usize {
    match c.hard_threshold {
        Some(h) => h,
        None => if PENDING_HARD >= c.soft_threshold {
            PENDING_HARD
        } else {
            c.soft_threshold
        },
    }
}

/// The first rule that `c` breaks, if any.
pub open spec fn bpann_error(c: BpannConfig) -> Option<Seq<char>> {
    if c.index_fragment == 0 {
        Some("index_fragment must be positive"@)
    } else if c.search_width == 0 {
        Some("search_width must be positive"@)
    } else if c.exhaustive_limit == 0 {
        Some("exhaustive_limit must be positive"@)
    } else if c.skip_limit < c.exhaustive_limit {
        Some("skip_limit must be at least exhaustive_limit"@)
    } else if resolved_hard(c) < c.soft_threshold {
        Some("hard_threshold must be at least soft_threshold"@)
    } else {
        None
    }
}

impl Default for BpannConfig {
    fn default() -> (r: Self)
        ensures
            r == default_bpann(),
    {
        BpannConfig {
            index_fragment: 10_000,
            index_max: 32,
            search_fragment: 80_000,
            fragment_rows: 15_000,
            search_limit: 1,
            build_seed: None,
            soft_threshold: 250,
            hard_threshold: Some(3000),
            structured_limit: 1024,
            search_width: 1,
            exhaustive_limit: 2500,
            skip_limit: 150_000,
        }
    }
}

impl BpannConfig {
    /// Validates all tunable fields, reporting the first violation.
    pub fn validate(&self) -> (r: Result<(), String>)
        ensures
            match r {
                Ok(()) => bpann_error(*self) is None,
                Err(e) => bpann_error(*self) == Some(e@),
            },
    {
        if self.index_fragment == 0 {
            return Err(String::from_str("index_fragment must be positive"));
        }
        if self.search_width == 0 {
            return Err(String::from_str("search_width must be positive"));
        }
        if self.exhaustive_limit == 0 {
            return Err(String::from_str("exhaustive_limit must be positive"));
        }
        if self.skip_limit < self.exhaustive_limit {
            return Err(String::from_str("skip_limit must be at least exhaustive_limit"));
        }
        if self.resolved_threshold() < self.soft_threshold {
            return Err(String::from_str("hard_threshold must be at least soft_threshold"));
        }
        Ok(())
    }

    /// Resolves the hard pending cap: an absent key gives the larger of
    /// `PENDING_HARD` and the soft threshold.
    pub fn resolved_threshold(&self) -> (r: usize)
        ensures
            r == resolved_hard(*self),
    {
        match self.hard_threshold {
            Some(h) => h,
            None => if PENDING_HARD >= self.soft_threshold {
                PENDING_HARD
            } else {
                self.soft_threshold
            },
        }
    }
}

/// Root document of the configuration file.
#[derive(Debug, Clone, Copy, PartialEq, Eq, Structural)]
pub struct ConfigFile {
    pub bpann: BpannConfig,
}

impl Default for ConfigFile {
    fn default() -> (r: Self)
        ensures
            r.bpann == default_bpann(),
    {
        ConfigFile { bpann: BpannConfig::default() }
    }
}

/// The defaults satisfy every rule.
pub proof fn lemma_defaults_valid()
    ensures
        bpann_error(default_bpann()) is None,
        resolved_hard(default_bpann()) == PENDING_HARD,
{
}

/// A file without a hard cap never fails the cap rule: the cap resolves to at
/// least the soft threshold and to at least `PENDING_HARD`.
pub proof fn lemma_absent_hard_resolves(c: BpannConfig)
    requires
        c.hard_threshold is None,
    ensures
        resolved_hard(c) >= c.soft_threshold,
        resolved_hard(c) >= PENDING_HARD,
        resolved_hard(c) == PENDING_HARD || resolved_hard(c) == c.soft_threshold,
{
}

} // verus!
