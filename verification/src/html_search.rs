//! Turning an arXiv search results page into a minimal Atom feed.
use vstd::prelude::*;
use crate::text::{chars_of, push_range, string_from_chars, trim, trim_end_index, trim_start_index};

verus! {

/// For pattern `pattern` and text `hay`: the first capture group of every
/// non-overlapping match, left to right (`Regex::captures_iter`); `None` when the
/// pattern does not compile.
pub uninterp spec fn regex_groups_all(pattern: Seq<char>, hay: Seq<char>) -> Option<Seq<Seq<char>>>;

/// The first capture group of the leftmost match (`Regex::captures`), `None` inside
/// when there is no match; `None` outside when the pattern does not compile.
pub uninterp spec fn regex_group_first(pattern: Seq<char>, hay: Seq<char>) -> Option<Option<Seq<char>>>;

/// `hay` with every match deleted (`Regex::replace_all` with an empty replacement);
/// `None` when the pattern does not compile.
pub uninterp spec fn regex_delete_all(pattern: Seq<char>, hay: Seq<char>) -> Option<Seq<char>>;

/// Calls `regex::Regex::new` and `Regex::captures_iter`, and returns group 1 of each
/// match. The contract names the result; nothing about regular-expression matching is
/// stated here.
#[verifier::external_body]
fn groups_all(pattern: &str, hay: &str) -> (r: Option<Vec<String>>)
    ensures
        match r {
            Some(v) => regex_groups_all(pattern@, hay@) == Some(v@.map_values(|s: String| s@)),
            None => regex_groups_all(pattern@, hay@) is None,
        },
{
    let re = regex::Regex::new(pattern).ok()?;
    Some(re.captures_iter(hay).map(|c| c.get(1).map_or("", |m| m.as_str()).to_string()).collect())
}

/// Calls `regex::Regex::new` and `Regex::captures`, and returns group 1 of the first
/// match. The contract names the result.
#[verifier::external_body]
fn group_first(pattern: &str, hay: &str) -> (r: Option<Option<String>>)
    ensures
        match r {
            Some(Some(s)) => regex_group_first(pattern@, hay@) == Some(Some(s@)),
            Some(None) => regex_group_first(pattern@, hay@) == Some(None::<Seq<char>>),
            None => regex_group_first(pattern@, hay@) is None,
        },
{
    let re = regex::Regex::new(pattern).ok()?;
    Some(re.captures(hay).map(|c| c.get(1).map_or("", |m| m.as_str()).to_string()))
}

/// Calls `regex::Regex::new` and `Regex::replace_all` with an empty replacement. The
/// contract names the result.
#[verifier::external_body]
fn delete_all(pattern: &str, hay: &str) -> (r: Option<String>)
    ensures
        match r {
            Some(s) => regex_delete_all(pattern@, hay@) == Some(s@),
            None => regex_delete_all(pattern@, hay@) is None,
        },
{
    let re = regex::Regex::new(pattern).ok()?;
    Some(re.replace_all(hay, "").into_owned())
}


/// One search result: `(?s)<li class=.arxiv-result.>(.*?)</li>`.
pub open spec fn block_pattern() -> Seq<char> {
    "(?s)<li class=.arxiv-result.>(.*?)</li>"@
}

/// The arXiv identifier in a result: `arxiv\.org/abs/(\d+\.\d+v?\d*)`.
pub open spec fn id_pattern() -> Seq<char> {
    "arxiv\\.org/abs/(\\d+\\.\\d+v?\\d*)"@
}

/// The title paragraph of a result.
pub open spec fn title_pattern() -> Seq<char> {
    "(?s)<p class=\"title is-5 mathjax\">\\s*(.*?)\\s*</p>"@
}

/// An HTML tag: `<[^>]*>`.
pub open spec fn tag_pattern() -> Seq<char> {
    "<[^>]*>"@
}

/// Identifier and tag-free, trimmed title of one result block, when it has both.
pub open spec fn block_entry(block: Seq<char>) -> Option<(Seq<char>, Seq<char>)> {
    match (regex_group_first(id_pattern(), block), regex_group_first(title_pattern(), block)) {
        (Some(Some(id)), Some(Some(t))) => match regex_delete_all(tag_pattern(), t) {
            Some(clean) => Some((id, trim(clean))),
            None => None,
        },
        _ => None,
    }
}

pub open spec fn block_entries(blocks: Seq<Seq<char>>) -> Seq<(Seq<char>, Seq<char>)>
    decreases blocks.len(),
{
    if blocks.len() == 0 {
        seq![]
    } else {
        let rest = block_entries(blocks.drop_last());
        match block_entry(blocks.last()) {
            Some(e) => rest.push(e),
            None => rest,
        }
    }
}

/// `(id, title)` of every result on a search page that has both, in page order.
pub open spec fn search_entries(html: Seq<char>) -> Seq<(Seq<char>, Seq<char>)> {
    match regex_groups_all(block_pattern(), html) {
        Some(blocks) => block_entries(blocks),
        None => seq![],
    }
}

pub open spec fn entry_xml(id: Seq<char>, title: Seq<char>) -> Seq<char> {
    "<entry><id>http://arxiv.org/abs/"@ + id + "</id><title>"@ + title
        + "</title><link href=\"http://arxiv.org/abs/"@ + id
        + "\" rel=\"alternate\" type=\"text/html\"/></entry>"@
}

pub open spec fn entries_xml(es: Seq<(Seq<char>, Seq<char>)>) -> Seq<char>
    decreases es.len(),
{
    if es.len() == 0 {
        seq![]
    } else {
        entries_xml(es.drop_last()) + entry_xml(es.last().0, es.last().1)
    }
}

/// The Atom feed built from a search page.
pub open spec fn atom_feed(html: Seq<char>) -> Seq<char> {
    "<?xml version=\"1.0\" encoding=\"UTF-8\"?><feed xmlns=\"http://www.w3.org/2005/Atom\">"@
        + entries_xml(search_entries(html)) + "</feed>"@
}

pub open spec fn pair_views(v: Seq<(String, String)>) -> Seq<(Seq<char>, Seq<char>)> {
    v.map_values(|p: (String, String)| (p.0@, p.1@))
}

fn trim_string(s: &str) -> (r: String)
    ensures
        r@ == trim(s@),
{
    let v = chars_of(s);
    let e = trim_end_index(&v, 0, v.len());
    let b = trim_start_index(&v, 0, e);
    assert(v@.subrange(0, v@.len() as int) =~= v@);
    let mut w: Vec<char> = Vec::new();
    push_range(&mut w, &v, b, e);
    assert(w@ =~= v@.subrange(b as int, e as int));
    string_from_chars(&w)
}

/// Identifier and title of one result block; see `block_entry`.
fn entry_of_block(block: &str) -> (r: Option<(String, String)>)
    ensures
        match r {
            Some(p) => block_entry(block@) == Some((p.0@, p.1@)),
            None => block_entry(block@) is None,
        },
{
    let id = group_first("arxiv\\.org/abs/(\\d+\\.\\d+v?\\d*)", block);
    let title = group_first("(?s)<p class=\"title is-5 mathjax\">\\s*(.*?)\\s*</p>", block);
    match (id, title) {
        (Some(Some(id)), Some(Some(t))) => match delete_all("<[^>]*>", t.as_str()) {
            Some(clean) => Some((id, trim_string(clean.as_str()))),
            None => None,
        },
        _ => None,
    }
}

/// `(id, title)` of every result on an arXiv search page that has both.
pub fn scrape_search_entries(html: &str) -> (r: Vec<(String, String)>)
    ensures
        pair_views(r@) == search_entries(html@),
{
    let mut out: Vec<(String, String)> = Vec::new();
    match groups_all("(?s)<li class=.arxiv-result.>(.*?)</li>", html) {
        Some(blocks) => {
            let ghost bv = blocks@.map_values(|s: String| s@);
            let mut k: usize = 0;
            while k < blocks.len()
                invariant
                    k <= blocks@.len(),
                    bv == blocks@.map_values(|s: String| s@),
                    pair_views(out@) == block_entries(bv.take(k as int)),
                decreases blocks.len() - k,
            {
                assert(bv.take(k + 1 as int).drop_last() =~= bv.take(k as int));
                assert(bv.take(k + 1 as int).last() == blocks@[k as int]@);
                match entry_of_block(blocks[k].as_str()) {
                    Some(p) => {
                        let ghost before = out@;
                        out.push(p);
                        assert(pair_views(out@) =~= pair_views(before).push((p.0@, p.1@)));
                    },
                    None => {},
                }
                k = k + 1;
            }
            assert(bv.take(blocks@.len() as int) =~= bv);
        },
        None => {
            assert(pair_views(out@) =~= Seq::<(Seq<char>, Seq<char>)>::empty());
        },
    }
    out
}

/// Rebuild an arXiv search results page as an Atom feed of `<entry>` elements
/// carrying each result's identifier, title and link.
pub fn search_page_to_atom(html: &str) -> (feed: String)
    ensures
        feed@ == atom_feed(html@),
{
    let entries = scrape_search_entries(html);
    let ghost es = pair_views(entries@);
    let mut body = String::new();
    let mut k: usize = 0;
    while k < entries.len()
        invariant
            k <= entries@.len(),
            es == pair_views(entries@),
            body@ == entries_xml(es.take(k as int)),
        decreases entries.len() - k,
    {
        assert(es.take(k + 1 as int).drop_last() =~= es.take(k as int));
        assert(es.take(k + 1 as int).last() == (entries@[k as int].0@, entries@[k as int].1@));
        let (id, title) = (&entries[k].0, &entries[k].1);
        body.append("<entry><id>http://arxiv.org/abs/");
        body.append(id.as_str());
        body.append("</id><title>");
        body.append(title.as_str());
        body.append("</title><link href=\"http://arxiv.org/abs/");
        body.append(id.as_str());
        body.append("\" rel=\"alternate\" type=\"text/html\"/></entry>");
        k = k + 1;
    }
    assert(es.take(entries@.len() as int) =~= es);
    let mut feed = String::from_str(
        "<?xml version=\"1.0\" encoding=\"UTF-8\"?><feed xmlns=\"http://www.w3.org/2005/Atom\">",
    );
    feed.append(body.as_str());
    feed.append("</feed>");
    feed
}


/// One `<entry>` of the feed: identifier, title and link of a result.
pub open spec fn feed_entry(e: (Seq<char>, Seq<char>)) -> Seq<char> {
    "<entry><id>http://arxiv.org/abs/"@ + e.0 + "</id><title>"@ + e.1
        + "</title><link href=\"http://arxiv.org/abs/"@ + e.0
        + "\" rel=\"alternate\" type=\"text/html\"/></entry>"@
}

proof fn lemma_entries_xml_flatten(es: Seq<(Seq<char>, Seq<char>)>)
    ensures
        entries_xml(es) == es.map_values(|e: (Seq<char>, Seq<char>)| feed_entry(e)).flatten(),
    decreases es.len(),
{
    let m = es.map_values(|e: (Seq<char>, Seq<char>)| feed_entry(e));
    if es.len() == 0 {
        assert(m =~= Seq::<Seq<char>>::empty());
    } else {
        lemma_entries_xml_flatten(es.drop_last());
        let md = es.drop_last().map_values(|e: (Seq<char>, Seq<char>)| feed_entry(e));
        assert(m =~= md.push(feed_entry(es.last())));
        md.lemma_flatten_push(feed_entry(es.last()));
    }
}

proof fn lemma_block_entries_filter(blocks: Seq<Seq<char>>)
    ensures
        block_entries(blocks) == blocks.filter_map(|b: Seq<char>| block_entry(b)),
    decreases blocks.len(),
{
    if blocks.len() > 0 {
        lemma_block_entries_filter(blocks.drop_last());
        let rest = block_entries(blocks.drop_last());
        match block_entry(blocks.last()) {
            Some(e) => {
                assert(rest.push(e) =~= rest + seq![e]);
            },
            None => {},
        }
    }
}

/// The feed lists every result of the page that has an identifier and a title, one
/// `<entry>` each, in page order, between the XML header and the closing tag.
pub proof fn lemma_feed_lists_every_result(html: Seq<char>)
    ensures
        atom_feed(html)
            == "<?xml version=\"1.0\" encoding=\"UTF-8\"?><feed xmlns=\"http://www.w3.org/2005/Atom\">"@
            + search_entries(html).map_values(|e: (Seq<char>, Seq<char>)| feed_entry(e)).flatten()
            + "</feed>"@,
        regex_groups_all(block_pattern(), html) matches Some(blocks) ==> search_entries(html)
            == blocks.filter_map(|b: Seq<char>| block_entry(b)),
        regex_groups_all(block_pattern(), html) is None ==> search_entries(html).len() == 0,
{
    lemma_entries_xml_flatten(search_entries(html));
    match regex_groups_all(block_pattern(), html) {
        Some(blocks) => {
            lemma_block_entries_filter(blocks);
        },
        None => {},
    }
}

} // verus!
