//! Building structured search queries.
use vstd::prelude::*;

verus! {

/// `str::to_lowercase`.
pub uninterp spec fn unicode_lowercase(s: Seq<char>) -> Seq<char>;

/// `str::to_lowercase`: full Unicode lowercasing by the standard library's tables; the
/// contract names the result.
#[verifier::external_body]
pub(crate) fn to_lowercase(s: &str) -> (r: String)
    ensures
        r@ == unicode_lowercase(s@),
{
    s.to_lowercase()
}

/// The terms of a search: keywords, categories, excluded keywords and a date range
/// (`YYYY-MM`).
#[derive(Debug, Clone, PartialEq, Eq)]
pub struct SearchQuery {
    pub keywords: Vec<String>,
    pub categories: Vec<String>,
    pub exclude_keywords: Vec<String>,
    pub date_range: Option<(String, String)>,
}

pub open spec fn strs(v: Seq<String>) -> Seq<Seq<char>> {
    v.map_values(|s: String| s@)
}

pub open spec fn str_views(v: Seq<&str>) -> Seq<Seq<char>> {
    v.map_values(|s: &str| s@)
}

pub open spec fn date_view(d: Option<(String, String)>) -> Option<(Seq<char>, Seq<char>)> {
    match d {
        Some((a, b)) => Some((a@, b@)),
        None => None,
    }
}

/// Builds a `SearchQuery` step by step.
pub struct QueryBuilder {
    query: SearchQuery,
}

impl QueryBuilder {
    pub closed spec fn current(&self) -> SearchQuery {
        self.query
    }

    /// An empty query.
    pub fn new() -> (b: Self)
        ensures
            b.current().keywords@.len() == 0,
            b.current().categories@.len() == 0,
            b.current().exclude_keywords@.len() == 0,
            b.current().date_range is None,
    {
        QueryBuilder {
            query: SearchQuery {
                keywords: Vec::new(),
                categories: Vec::new(),
                exclude_keywords: Vec::new(),
                date_range: None,
            },
        }
    }

    /// Add a keyword, lowercased.
    pub fn keyword(self, keyword: &str) -> (b: Self)
        ensures
            strs(b.current().keywords@) == strs(self.current().keywords@).push(
                unicode_lowercase(keyword@),
            ),
            b.current().categories == self.current().categories,
            b.current().exclude_keywords == self.current().exclude_keywords,
            b.current().date_range == self.current().date_range,
    {
        let mut b = self;
        let ghost before = b.query.keywords@;
        b.query.keywords.push(to_lowercase(keyword));
        assert(strs(b.query.keywords@) =~= strs(before).push(unicode_lowercase(keyword@)));
        b
    }

    /// Add several keywords, each lowercased.
    pub fn keywords(self, keywords: &[&str]) -> (b: Self)
        ensures
            strs(b.current().keywords@) == strs(self.current().keywords@) + str_views(
                keywords@,
            ).map_values(|k: Seq<char>| unicode_lowercase(k)),
            b.current().categories == self.current().categories,
            b.current().exclude_keywords == self.current().exclude_keywords,
            b.current().date_range == self.current().date_range,
    {
        let mut b = self;
        let ghost start = strs(b.query.keywords@);
        let ghost lows = str_views(keywords@).map_values(|k: Seq<char>| unicode_lowercase(k));
        let mut i: usize = 0;
        while i < keywords.len()
            invariant
                i <= keywords@.len(),
                lows == str_views(keywords@).map_values(|k: Seq<char>| unicode_lowercase(k)),
                strs(b.query.keywords@) == start + lows.take(i as int),
                b.query.categories == self.query.categories,
                b.query.exclude_keywords == self.query.exclude_keywords,
                b.query.date_range == self.query.date_range,
            decreases keywords.len() - i,
        {
            let ghost before = b.query.keywords@;
            let k = to_lowercase(keywords[i]);
            b.query.keywords.push(k);
            assert(strs(b.query.keywords@) =~= strs(before).push(k@));
            assert(lows.take(i + 1 as int) =~= lows.take(i as int).push(lows[i as int]));
            assert(lows[i as int] == unicode_lowercase(keywords@[i as int]@));
            assert(strs(b.query.keywords@) =~= start + lows.take(i + 1 as int));
            i = i + 1;
        }
        assert(lows.take(keywords@.len() as int) =~= lows);
        b
    }

    /// Exclude papers matching a keyword (lowercased).
    pub fn exclude(self, keyword: &str) -> (b: Self)
        ensures
            strs(b.current().exclude_keywords@) == strs(self.current().exclude_keywords@).push(
                unicode_lowercase(keyword@),
            ),
            b.current().keywords == self.current().keywords,
            b.current().categories == self.current().categories,
            b.current().date_range == self.current().date_range,
    {
        let mut b = self;
        let ghost before = b.query.exclude_keywords@;
        b.query.exclude_keywords.push(to_lowercase(keyword));
        assert(strs(b.query.exclude_keywords@) =~= strs(before).push(unicode_lowercase(keyword@)));
        b
    }

    /// Filter by an arXiv category.
    pub fn category(self, category: &str) -> (b: Self)
        ensures
            strs(b.current().categories@) == strs(self.current().categories@).push(category@),
            b.current().keywords == self.current().keywords,
            b.current().exclude_keywords == self.current().exclude_keywords,
            b.current().date_range == self.current().date_range,
    {
        let mut b = self;
        let ghost before = b.query.categories@;
        b.query.categories.push(String::from_str(category));
        assert(strs(b.query.categories@) =~= strs(before).push(category@));
        b
    }

    /// Filter by several categories (any of them).
    pub fn categories(self, cats: &[&str]) -> (b: Self)
        ensures
            strs(b.current().categories@) == strs(self.current().categories@) + str_views(cats@),
            b.current().keywords == self.current().keywords,
            b.current().exclude_keywords == self.current().exclude_keywords,
            b.current().date_range == self.current().date_range,
    {
        let mut b = self;
        let ghost start = strs(b.query.categories@);
        let mut i: usize = 0;
        while i < cats.len()
            invariant
                i <= cats@.len(),
                strs(b.query.categories@) == start + str_views(cats@).take(i as int),
                b.query.keywords == self.query.keywords,
                b.query.exclude_keywords == self.query.exclude_keywords,
                b.query.date_range == self.query.date_range,
            decreases cats.len() - i,
        {
            let ghost before = b.query.categories@;
            let c = String::from_str(cats[i]);
            b.query.categories.push(c);
            assert(strs(b.query.categories@) =~= strs(before).push(c@));
            assert(str_views(cats@).take(i + 1 as int) =~= str_views(cats@).take(i as int).push(
                cats@[i as int]@,
            ));
            assert(strs(b.query.categories@) =~= start + str_views(cats@).take(i + 1 as int));
            i = i + 1;
        }
        assert(str_views(cats@).take(cats@.len() as int) =~= str_views(cats@));
        b
    }

    /// Start the date range at `date`, keeping its end (`2025-12` when there was none).
    pub fn since(self, date: &str) -> (b: Self)
        ensures
            date_view(b.current().date_range) == Some(
                (
                    date@,
                    match self.current().date_range {
                        Some((_, until)) => until@,
                        None => "2025-12"@,
                    },
                ),
            ),
            b.current().keywords == self.current().keywords,
            b.current().categories == self.current().categories,
            b.current().exclude_keywords == self.current().exclude_keywords,
    {
        let mut b = self;
        let until = match &b.query.date_range {
            Some((_, u)) => u.clone(),
            None => String::from_str("2025-12"),
        };
        b.query.date_range = Some((String::from_str(date), until));
        b
    }

    /// The query built so far.
    pub fn build(self) -> (q: SearchQuery)
        ensures
            q == self.current(),
    {
        self.query
    }
}

} // verus!
