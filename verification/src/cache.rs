//! Where cached arXiv payloads live on disk.
use vstd::prelude::*;

verus! {

/// `dir` joined with `name` as a path: an absolute `name` replaces `dir`, and a
/// separator goes between them unless `dir` is empty or already ends in one.
pub open spec fn join_path(dir: Seq<char>, name: Seq<char>) -> Seq<char> {
    if name.len() > 0 && name[0] == '/' {
        name
    } else if dir.len() == 0 || dir.last() == '/' {
        dir + name
    } else {
        dir + seq!['/'] + name
    }
}

/// The file that holds a paper's payload: the paper ID with an extension.
pub open spec fn cache_file(dir: Seq<char>, paper_id: Seq<char>, ext: Seq<char>) -> Seq<char> {
    join_path(dir, paper_id + seq!['.'] + ext)
}

/// A cache of HTML and PDF payloads of arXiv papers, one file per paper and format
/// in one directory.
#[derive(Debug, Clone, PartialEq, Eq)]
pub struct ArxivCache {
    cache_dir: String,
}

impl ArxivCache {
    pub closed spec fn dir(&self) -> Seq<char> {
        self.cache_dir@
    }

    /// A cache kept in `cache_dir`.
    pub fn new(cache_dir: String) -> (c: Self)
        ensures
            c.dir() == cache_dir@,
    {
        ArxivCache { cache_dir }
    }

    /// The directory of the cache.
    pub fn cache_dir(&self) -> (d: &str)
        ensures
            d@ == self.dir(),
    {
        self.cache_dir.as_str()
    }

    fn file(&self, paper_id: &str, ext: &str) -> (p: String)
        ensures
            p@ == cache_file(self.dir(), paper_id@, ext@),
    {
        let mut name = String::from_str(paper_id);
        name.append(".");
        proof {
            reveal_strlit(".");
        }
        name.append(ext);
        let id_first = paper_id.unicode_len() > 0 && paper_id.get_char(0) == '/';
        if id_first {
            return name;
        }
        let dir = self.cache_dir.as_str();
        let n = dir.unicode_len();
        if n == 0 || dir.get_char(n - 1) == '/' {
            let mut out = String::from_str(dir);
            out.append(name.as_str());
            out
        } else {
            let mut out = String::from_str(dir);
            out.append("/");
            proof {
                reveal_strlit("/");
            }
            out.append(name.as_str());
            out
        }
    }

    /// The file holding the HTML of `paper_id`.
    pub fn html_path(&self, paper_id: &str) -> (p: String)
        ensures
            p@ == cache_file(self.dir(), paper_id@, "html"@),
    {
        self.file(paper_id, "html")
    }

    /// The file holding the PDF of `paper_id`.
    pub fn pdf_path(&self, paper_id: &str) -> (p: String)
        ensures
            p@ == cache_file(self.dir(), paper_id@, "pdf"@),
    {
        self.file(paper_id, "pdf")
    }
}

/// Files of the cache do not collide: a paper's HTML and PDF files differ, and two
/// different (relative) paper IDs get different files of each kind.
pub proof fn lemma_cache_files_distinct(dir: Seq<char>, id1: Seq<char>, id2: Seq<char>)
    requires
        id1.len() == 0 || id1[0] != '/',
        id2.len() == 0 || id2[0] != '/',
    ensures
        cache_file(dir, id1, "html"@) != cache_file(dir, id1, "pdf"@),
        id1 != id2 ==> cache_file(dir, id1, "html"@) != cache_file(dir, id2, "html"@),
        id1 != id2 ==> cache_file(dir, id1, "pdf"@) != cache_file(dir, id2, "pdf"@),
{
    reveal_strlit("html");
    reveal_strlit("pdf");
    let pre = if dir.len() == 0 || dir.last() == '/' {
        dir
    } else {
        dir + seq!['/']
    };
    assert forall|id: Seq<char>, ext: Seq<char>| (id.len() == 0 || id[0] != '/') implies #[trigger] cache_file(dir, id, ext)
        == pre + (id + seq!['.'] + ext) by {
        let name = id + seq!['.'] + ext;
        if id.len() == 0 {
            assert(name[0] == '.');
        } else {
            assert(name[0] == id[0]);
        }
        assert(join_path(dir, name) =~= pre + name);
    }
    let h1 = cache_file(dir, id1, "html"@);
    let p1 = cache_file(dir, id1, "pdf"@);
    assert(h1.len() != p1.len());
    if id1 != id2 {
        let h2 = cache_file(dir, id2, "html"@);
        let p2 = cache_file(dir, id2, "pdf"@);
        if h1 == h2 {
            assert(id1.len() == id2.len());
            assert(id1 =~= id2) by {
                assert forall|k: int| 0 <= k < id1.len() implies id1[k] == id2[k] by {
                    assert(h1[pre.len() + k] == id1[k]);
                    assert(h2[pre.len() + k] == id2[k]);
                }
            }
        }
        if p1 == p2 {
            assert(id1.len() == id2.len());
            assert(id1 =~= id2) by {
                assert forall|k: int| 0 <= k < id1.len() implies id1[k] == id2[k] by {
                    assert(p1[pre.len() + k] == id1[k]);
                    assert(p2[pre.len() + k] == id2[k]);
                }
            }
        }
    }
}

} // verus!
