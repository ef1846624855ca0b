//! Settings and bookkeeping for bulk downloads from the arXiv S3 bucket.
use vstd::prelude::*;
use crate::text::{chars_of, string_from_chars};

verus! {

/// Where and how papers are downloaded from S3.
#[derive(Debug, Clone, PartialEq, Eq)]
pub struct S3Config {
    pub bucket: String,
    pub region: String,
    pub requester_pays: bool,
    pub prefix: Option<String>,
    pub max_concurrent_downloads: usize,
    pub chunk_size_mb: usize,
}

impl Default for S3Config {
    fn default() -> (c: Self)
        ensures
            c.bucket@ == "arxiv"@,
            c.region@ == "us-east-1"@,
            c.requester_pays,
            c.prefix matches Some(p) && p@ == "pdf"@,
            c.max_concurrent_downloads == 10,
            c.chunk_size_mb == 10,
    {
        S3Config {
            bucket: String::from_str("arxiv"),
            region: String::from_str("us-east-1"),
            requester_pays: true,
            prefix: Some(String::from_str("pdf")),
            max_concurrent_downloads: 10,
            chunk_size_mb: 10,
        }
    }
}

/// The part of an object key after its last `/`.
pub open spec fn last_segment(s: Seq<char>) -> Seq<char>
    decreases s.len(),
{
    if s.len() == 0 {
        seq![]
    } else if s.last() == '/' {
        seq![]
    } else {
        last_segment(s.drop_last()).push(s.last())
    }
}

/// The local file name for an object key: what follows the key's last `/`.
pub fn object_file_name(key: &str) -> (name: String)
    ensures
        name@ == last_segment(key@),
{
    let v = chars_of(key);
    let mut out: Vec<char> = Vec::new();
    let mut i: usize = 0;
    while i < v.len()
        invariant
            i <= v@.len(),
            out@ == last_segment(v@.take(i as int)),
        decreases v.len() - i,
    {
        assert(v@.take(i + 1 as int).drop_last() =~= v@.take(i as int));
        assert(v@.take(i + 1 as int).last() == v@[i as int]);
        if v[i] == '/' {
            out = Vec::new();
        } else {
            out.push(v[i]);
        }
        i = i + 1;
    }
    assert(v@.take(v@.len() as int) =~= v@);
    string_from_chars(&out)
}

/// Whole gigabytes to transfer for `total_papers` papers of `avg_size_mb` MB, and
/// the hours of compute assumed (one per thousand papers).
pub fn transfer_volume(total_papers: u64, avg_size_mb: u64) -> (r: (u64, u64))
    requires
        total_papers * avg_size_mb <= u64::MAX,
    ensures
        r.0 == (total_papers * avg_size_mb) / 1024,
        r.1 == total_papers / 1000,
{
    ((total_papers * avg_size_mb) / 1024, total_papers / 1000)
}


/// The file name is the end of the key after its last `/`: it holds no `/`, the key
/// ends with it, and what comes before it (if anything) ends with `/`.
pub proof fn lemma_file_name_after_last_slash(key: Seq<char>)
    ensures
        !last_segment(key).contains('/'),
        last_segment(key).len() <= key.len(),
        key.skip(key.len() - last_segment(key).len()) == last_segment(key),
        last_segment(key).len() < key.len() ==> key[key.len() - last_segment(key).len() - 1] == '/',
    decreases key.len(),
{
    if key.len() > 0 {
        lemma_file_name_after_last_slash(key.drop_last());
        let r = last_segment(key);
        if key.last() == '/' {
            assert(r =~= Seq::<char>::empty());
            assert(key.skip(key.len() as int) =~= r);
        } else {
            let r0 = last_segment(key.drop_last());
            assert(r == r0.push(key.last()));
            assert(!r.contains('/')) by {
                if r.contains('/') {
                    let j = choose|j: int| 0 <= j < r.len() && r[j] == '/';
                    if j < r0.len() {
                        assert(r0[j] == '/');
                    }
                }
            }
            assert(key.skip(key.len() - r.len()) =~= key.drop_last().skip(key.len() - 1 - r0.len()).push(
                key.last(),
            ));
            if r.len() < key.len() {
                assert(key[key.len() - r.len() - 1] == key.drop_last()[key.drop_last().len() - r0.len() - 1]);
            }
        }
    }
}

} // verus!
