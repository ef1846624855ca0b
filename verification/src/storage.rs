//! Checks on the location of the embedded database.
use vstd::prelude::*;
use crate::text::chars_of;

verus! {

/// The `/`-separated components of a path, empty ones included.
pub open spec fn components_acc(s: Seq<char>) -> (Seq<Seq<char>>, Seq<char>)
    decreases s.len(),
{
    if s.len() == 0 {
        (seq![], seq![])
    } else {
        let (done, cur) = components_acc(s.drop_last());
        if s.last() == '/' {
            (done.push(cur), seq![])
        } else {
            (done, cur.push(s.last()))
        }
    }
}

/// Some component of the path is `..`.
pub open spec fn climbs_up(path: Seq<char>) -> bool {
    let (done, cur) = components_acc(path);
    done.push(cur).contains(seq!['.', '.'])
}

/// Refuse a database path with a `..` component; the message says why.
pub fn validate_database_path(path: &str) -> (r: Result<(), String>)
    ensures
        r is Ok <==> !climbs_up(path@),
        r matches Err(m) ==> m@ == "Security Error: Path traversal attempt detected in database path"@,
{
    let v = chars_of(path);
    let ghost mut done: Seq<Seq<char>> = seq![];
    let mut cur: Vec<char> = Vec::new();
    let mut found = false;
    let mut i: usize = 0;
    while i < v.len()
        invariant
            i <= v@.len(),
            components_acc(v@.take(i as int)) == (done, cur@),
            found == done.contains(seq!['.', '.']),
        decreases v.len() - i,
    {
        assert(v@.take(i + 1 as int).drop_last() =~= v@.take(i as int));
        assert(v@.take(i + 1 as int).last() == v@[i as int]);
        if v[i] == '/' {
            let dotdot = cur.len() == 2 && cur[0] == '.' && cur[1] == '.';
            if dotdot {
                assert(cur@ =~= seq!['.', '.']);
            }
            assert(dotdot == (cur@ == seq!['.', '.']));
            proof {
                vstd::seq_lib::lemma_seq_contains_after_push(done, cur@, seq!['.', '.']);
                done = done.push(cur@);
            }
            found = found || dotdot;
            cur = Vec::new();
        } else {
            cur.push(v[i]);
        }
        i = i + 1;
    }
    assert(v@.take(v@.len() as int) =~= v@);
    let last_dotdot = cur.len() == 2 && cur[0] == '.' && cur[1] == '.';
    if last_dotdot {
        assert(cur@ =~= seq!['.', '.']);
    }
    assert(last_dotdot == (cur@ == seq!['.', '.']));
    proof {
        vstd::seq_lib::lemma_seq_contains_after_push(done, cur@, seq!['.', '.']);
    }
    if found || last_dotdot {
        Err(String::from_str("Security Error: Path traversal attempt detected in database path"))
    } else {
        Ok(())
    }
}

} // verus!
