//! Options for configuring the search index.
use vstd::prelude::*;

verus! {

/// What a set of options holds.
pub struct OptionsView {
    /// The maximum number of results a search returns.
    pub limit: usize,
    /// Whether the last query token can match indexed token prefixes.
    pub prefix_search: bool,
    /// Whether search tolerates typos.
    pub typo_tolerance: bool,
    /// Whether the index tells upper from lower case.
    pub case_sensitive: bool,
    /// Separators beyond whitespace.
    pub extra_separators: Seq<char>,
}

/// Options for configuring the search index.
#[derive(Debug, Clone)]
pub struct Options {
    limit: usize,
    prefix_search: bool,
    typo_tolerance: bool,
    case_sensitive: bool,
    extra_separators: Vec<char>,
}

impl View for Options {
    type V = OptionsView;

    closed spec fn view(&self) -> OptionsView {
        OptionsView {
            limit: self.limit,
            prefix_search: self.prefix_search,
            typo_tolerance: self.typo_tolerance,
            case_sensitive: self.case_sensitive,
            extra_separators: self.extra_separators@,
        }
    }
}

/// The default configuration: at most ten results, prefix search and typo
/// tolerance on, case insensitive, no separators beyond whitespace.
pub open spec fn default_options() -> OptionsView {
    OptionsView {
        limit: 10,
        prefix_search: true,
        typo_tolerance: true,
        case_sensitive: false,
        extra_separators: Seq::empty(),
    }
}

impl Options {
    /// Creates a default configuration.
    pub fn new() -> (r: Self)
        ensures
            r@ == default_options(),
    {
        Options {
            limit: 10,
            prefix_search: true,
            typo_tolerance: true,
            case_sensitive: false,
            extra_separators: Vec::new(),
        }
    }

    /// Sets the maximum number of results returned by a search.
    ///
    /// Defaults to `10`.
    pub fn limit(self, limit: usize) -> (r: Self)
        ensures
            r@ == (OptionsView { limit, ..self@ }),
    {
        Options { limit, ..self }
    }

    /// Sets whether the last query token can match indexed token prefixes.
    ///
    /// Defaults to `true`.
    pub fn prefix_search(self, prefix_search: bool) -> (r: Self)
        ensures
            r@ == (OptionsView { prefix_search, ..self@ }),
    {
        Options { prefix_search, ..self }
    }

    /// Sets whether search tolerates typos using Jaro-Winkler similarity.
    ///
    /// Defaults to `true`.
    pub fn typo_tolerance(self, typo_tolerance: bool) -> (r: Self)
        ensures
            r@ == (OptionsView { typo_tolerance, ..self@ }),
    {
        Options { typo_tolerance, ..self }
    }

    /// Sets whether the index is case sensitive.
    ///
    /// Defaults to `false`.
    pub fn case_sensitive(self, case_sensitive: bool) -> (r: Self)
        ensures
            r@ == (OptionsView { case_sensitive, ..self@ }),
    {
        Options { case_sensitive, ..self }
    }

    /// Sets the token separators used on top of whitespace, replacing any
    /// set before.
    ///
    /// Indexed parts and search queries are always split by
    /// `char::is_whitespace` characters. This option adds more separators
    /// on top of that default behavior.
    ///
    /// Defaults to no extra separators.
    pub fn separators(self, separators: &[char]) -> (r: Self)
        ensures
            r@ == (OptionsView { extra_separators: separators@, ..self@ }),
    {
        let mut extra_separators: Vec<char> = Vec::new();
        let mut i: usize = 0;
        while i < separators.len()
            invariant
                i <= separators.len(),
                extra_separators@ == separators@.take(i as int),
            decreases separators.len() - i,
        {
            extra_separators.push(separators[i]);
            i = i + 1;
            proof {
                assert(extra_separators@ =~= separators@.take(i as int));
            }
        }
        proof {
            assert(extra_separators@ =~= separators@);
        }
        Options { extra_separators, ..self }
    }

    /// The maximum number of results returned by a search.
    pub fn max_results(&self) -> (r: usize)
        ensures
            r == self@.limit,
    {
        self.limit
    }

    /// Whether the last query token can match indexed token prefixes.
    pub fn prefix_search_enabled(&self) -> (r: bool)
        ensures
            r == self@.prefix_search,
    {
        self.prefix_search
    }

    /// Whether search tolerates typos.
    pub fn typo_tolerance_enabled(&self) -> (r: bool)
        ensures
            r == self@.typo_tolerance,
    {
        self.typo_tolerance
    }

    /// Whether the index is case sensitive.
    pub fn is_case_sensitive(&self) -> (r: bool)
        ensures
            r == self@.case_sensitive,
    {
        self.case_sensitive
    }

    /// The separators used on top of whitespace.
    pub fn extra_separators(&self) -> (r: &[char])
        ensures
            r@ == self@.extra_separators,
    {
        self.extra_separators.as_slice()
    }
}

impl Default for Options {
    fn default() -> (r: Self)
        ensures
            r@ == default_options(),
    {
        Options::new()
    }
}

} // verus!
