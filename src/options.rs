use vstd::prelude::*;

verus! {

/// Options for `decompound`, configuring its search: a set of independent flags,
/// combinable by union. `DecompositionOptions::empty()` sets none of them.
#[derive(Clone, Copy, Debug, PartialEq, Eq, Structural)]
pub struct DecompositionOptions {
    /// Also try each suffix titlecased.
    pub try_titlecase_suffix: bool,
    /// Treat hyphens as hard compound boundaries.
    pub split_hyphenated: bool,
    /// Prefer the decomposition with the most constituents.
    pub shatter: bool,
}

impl DecompositionOptions {
    /// No option set.
    pub fn empty() -> (r: DecompositionOptions)
        ensures
            !r.try_titlecase_suffix,
            !r.split_hyphenated,
            !r.shatter,
    {
        DecompositionOptions { try_titlecase_suffix: false, split_hyphenated: false, shatter: false }
    }

    /// Every option set.
    pub fn all() -> (r: DecompositionOptions)
        ensures
            r.try_titlecase_suffix,
            r.split_hyphenated,
            r.shatter,
    {
        DecompositionOptions { try_titlecase_suffix: true, split_hyphenated: true, shatter: true }
    }

    /// In addition to each suffix as it stands, also try its titlecased version (first
    /// character titlecased, the rest lowercased). Does nothing where the suffix is
    /// already in that form.
    pub fn try_titlecase_suffix() -> (r: DecompositionOptions)
        ensures
            r.try_titlecase_suffix,
            !r.split_hyphenated,
            !r.shatter,
    {
        DecompositionOptions { try_titlecase_suffix: true, split_hyphenated: false, shatter: false }
    }

    /// Treat hyphens as hard compound boundaries: the constituents of every
    /// hyphen-separated part are returned together, without the hyphens.
    pub fn split_hyphenated() -> (r: DecompositionOptions)
        ensures
            !r.try_titlecase_suffix,
            r.split_hyphenated,
            !r.shatter,
    {
        DecompositionOptions { try_titlecase_suffix: false, split_hyphenated: true, shatter: false }
    }

    /// Prefer the decomposition with the most constituents instead of the fewest.
    pub fn shatter() -> (r: DecompositionOptions)
        ensures
            !r.try_titlecase_suffix,
            !r.split_hyphenated,
            r.shatter,
    {
        DecompositionOptions { try_titlecase_suffix: false, split_hyphenated: false, shatter: true }
    }

    /// The flags set in either `self` or `other`.
    pub fn union(self, other: DecompositionOptions) -> (r: DecompositionOptions)
        ensures
            r.try_titlecase_suffix == (self.try_titlecase_suffix || other.try_titlecase_suffix),
            r.split_hyphenated == (self.split_hyphenated || other.split_hyphenated),
            r.shatter == (self.shatter || other.shatter),
    {
        DecompositionOptions {
            try_titlecase_suffix: self.try_titlecase_suffix || other.try_titlecase_suffix,
            split_hyphenated: self.split_hyphenated || other.split_hyphenated,
            shatter: self.shatter || other.shatter,
        }
    }

    /// The flags set in `self` but not in `other`.
    pub fn difference(self, other: DecompositionOptions) -> (r: DecompositionOptions)
        ensures
            r.try_titlecase_suffix == (self.try_titlecase_suffix && !other.try_titlecase_suffix),
            r.split_hyphenated == (self.split_hyphenated && !other.split_hyphenated),
            r.shatter == (self.shatter && !other.shatter),
    {
        DecompositionOptions {
            try_titlecase_suffix: self.try_titlecase_suffix && !other.try_titlecase_suffix,
            split_hyphenated: self.split_hyphenated && !other.split_hyphenated,
            shatter: self.shatter && !other.shatter,
        }
    }

    /// Whether every flag set in `other` is set in `self`.
    pub fn contains(self, other: DecompositionOptions) -> (r: bool)
        ensures
            r == ((other.try_titlecase_suffix ==> self.try_titlecase_suffix) && (other.split_hyphenated
                ==> self.split_hyphenated) && (other.shatter ==> self.shatter)),
    {
        (!other.try_titlecase_suffix || self.try_titlecase_suffix) && (!other.split_hyphenated
            || self.split_hyphenated) && (!other.shatter || self.shatter)
    }

    /// Whether no flag is set.
    pub fn is_empty(self) -> (r: bool)
        ensures
            r == (!self.try_titlecase_suffix && !self.split_hyphenated && !self.shatter),
    {
        !self.try_titlecase_suffix && !self.split_hyphenated && !self.shatter
    }
}

impl core::ops::BitOr for DecompositionOptions {
    type Output = DecompositionOptions;

    /// The union of both sets of flags.
    fn bitor(self, other: DecompositionOptions) -> (r: DecompositionOptions) {
        self.union(other)
    }
}

impl vstd::std_specs::ops::BitOrSpecImpl for DecompositionOptions {
    open spec fn obeys_bitor_spec() -> bool {
        true
    }

    open spec fn bitor_req(self, other: DecompositionOptions) -> bool {
        true
    }

    open spec fn bitor_spec(self, other: DecompositionOptions) -> DecompositionOptions {
        DecompositionOptions {
            try_titlecase_suffix: self.try_titlecase_suffix || other.try_titlecase_suffix,
            split_hyphenated: self.split_hyphenated || other.split_hyphenated,
            shatter: self.shatter || other.shatter,
        }
    }
}

impl core::ops::Sub for DecompositionOptions {
    type Output = DecompositionOptions;

    /// The flags of `self` without those of `other`.
    fn sub(self, other: DecompositionOptions) -> (r: DecompositionOptions) {
        self.difference(other)
    }
}

impl vstd::std_specs::ops::SubSpecImpl for DecompositionOptions {
    open spec fn obeys_sub_spec() -> bool {
        true
    }

    open spec fn sub_req(self, other: DecompositionOptions) -> bool {
        true
    }

    open spec fn sub_spec(self, other: DecompositionOptions) -> DecompositionOptions {
        DecompositionOptions {
            try_titlecase_suffix: self.try_titlecase_suffix && !other.try_titlecase_suffix,
            split_hyphenated: self.split_hyphenated && !other.split_hyphenated,
            shatter: self.shatter && !other.shatter,
        }
    }
}

} // verus!
