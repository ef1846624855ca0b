//! Markdown normalisation, pruning and chunking of paper text.
use vstd::prelude::*;
use crate::paper::Paper;
use crate::text::{
    all_ws, is_ws, lemma_trim_end_shape, lemma_trim_range, lines_acc, strip_cr,
    chars_of, is_blank, lemma_blank_iff_trim_end_empty, line_ranges, lines, push_range, ranges_ok,
    slices, string_from_chars, trim, trim_end, trim_end_index, trim_start_index, decimal,
    decimal_string,
};

verus! {

/// `char::to_ascii_lowercase`.
pub open spec fn lower(c: char) -> char {
    if 'A' <= c && c <= 'Z' {
        ((c as u32) + 32) as char
    } else {
        c
    }
}

pub fn ascii_lower(c: char) -> (r: char)
    ensures
        r == lower(c),
{
    if 'A' <= c && c <= 'Z' {
        ((c as u8) + 32) as char
    } else {
        c
    }
}


/// Reading lines top to bottom: the text written so far, and whether the last line was blank.
/// A run of blank lines becomes one empty line; other lines lose trailing whitespace.
pub open spec fn collapse_acc(ls: Seq<Seq<char>>) -> (Seq<char>, bool)
    decreases ls.len(),
{
    if ls.len() == 0 {
        (seq![], false)
    } else {
        let (out, prev_blank) = collapse_acc(ls.drop_last());
        let l = ls.last();
        if is_blank(l) {
            if prev_blank {
                (out, true)
            } else {
                (out.push('\n'), true)
            }
        } else {
            (out + trim_end(l) + seq!['\n'], false)
        }
    }
}

/// What `collapse_blank_lines` returns for text `t`.
pub open spec fn collapsed(t: Seq<char>) -> Seq<char> {
    trim(collapse_acc(lines(t)).0)
}

/// `str::replace("\r\n", "\n")`.
pub open spec fn crlf_to_lf(s: Seq<char>) -> Seq<char>
    decreases s.len(),
{
    if s.len() >= 2 && s[0] == '\r' && s[1] == '\n' {
        seq!['\n'] + crlf_to_lf(s.skip(2))
    } else if s.len() == 0 {
        seq![]
    } else {
        seq![s[0]] + crlf_to_lf(s.skip(1))
    }
}

/// What `normalize_markdown` returns for text `t`.
pub open spec fn normalized(t: Seq<char>) -> Seq<char> {
    collapsed(crlf_to_lf(t))
}

/// Three newlines in a row start at `i`: a run of two blank lines.
pub open spec fn blank_run_at(s: Seq<char>, i: int) -> bool {
    s[i] == '\n' && s[i + 1] == '\n' && s[i + 2] == '\n'
}

/// `s` has no two blank lines in a row.
pub open spec fn no_blank_run(s: Seq<char>) -> bool {
    forall|i: int| 0 <= i && i + 2 < s.len() ==> !#[trigger] blank_run_at(s, i)
}

proof fn lemma_lines_acc_no_newline(s: Seq<char>)
    ensures
        forall|k: int| 0 <= k < lines_acc(s).0.len() ==> !(#[trigger] lines_acc(s).0[k]).contains('\n'),
        !lines_acc(s).1.contains('\n'),
    decreases s.len(),
{
    if s.len() > 0 {
        lemma_lines_acc_no_newline(s.drop_last());
        let (done, cur) = lines_acc(s.drop_last());
        if s.last() == '\n' {
            let c = strip_cr(cur);
            assert(!c.contains('\n')) by {
                if c.contains('\n') {
                    let j = choose|j: int| 0 <= j < c.len() && c[j] == '\n';
                    assert(cur[j] == '\n');
                }
            }
            assert forall|k: int| 0 <= k < done.push(c).len() implies !(#[trigger] done.push(c)[k]).contains('\n') by {
                if k < done.len() {
                    assert(done.push(c)[k] == done[k]);
                }
            }
            assert(!Seq::<char>::empty().contains('\n'));
        } else {
            let c = cur.push(s.last());
            assert(!c.contains('\n')) by {
                if c.contains('\n') {
                    let j = choose|j: int| 0 <= j < c.len() && c[j] == '\n';
                    if j < cur.len() {
                        assert(cur[j] == '\n');
                    }
                }
            }
        }
    }
}

proof fn lemma_lines_no_newline(s: Seq<char>)
    ensures
        forall|k: int| 0 <= k < lines(s).len() ==> !(#[trigger] lines(s)[k]).contains('\n'),
{
    lemma_lines_acc_no_newline(s);
    let (done, cur) = lines_acc(s);
    if cur.len() > 0 {
        assert forall|k: int| 0 <= k < done.push(cur).len() implies !(#[trigger] done.push(cur)[k]).contains('\n') by {
            if k < done.len() {
                assert(done.push(cur)[k] == done[k]);
            }
        }
    }
}

proof fn lemma_collapse_acc_shape(ls: Seq<Seq<char>>)
    requires
        forall|k: int| 0 <= k < ls.len() ==> !(#[trigger] ls[k]).contains('\n'),
    ensures
        no_blank_run(collapse_acc(ls).0),
        !collapse_acc(ls).1 ==> {
            let o = collapse_acc(ls).0;
            o.len() == 0 || (o.len() >= 2 && o.last() == '\n' && o[o.len() - 2] != '\n')
        },
        collapse_acc(ls).1 ==> {
            let o = collapse_acc(ls).0;
            o.len() >= 1 && o.last() == '\n' && (o.len() == 1 || (o.len() >= 3 && o[o.len() - 2] == '\n'
                && o[o.len() - 3] != '\n'))
        },
    decreases ls.len(),
{
    if ls.len() > 0 {
        let d = ls.drop_last();
        assert forall|k: int| 0 <= k < d.len() implies !(#[trigger] d[k]).contains('\n') by {
            assert(d[k] == ls[k]);
        }
        lemma_collapse_acc_shape(d);
        let (out, prev) = collapse_acc(d);
        let l = ls.last();
        assert(!l.contains('\n'));
        let o = collapse_acc(ls).0;
        if is_blank(l) {
            if !prev {
                assert(o == out.push('\n'));
                assert forall|i: int| 0 <= i && i + 2 < o.len() implies !#[trigger] blank_run_at(o, i) by {
                    if i + 2 < out.len() {
                        assert(blank_run_at(out, i) == blank_run_at(o, i));
                    }
                }
            }
        } else {
            lemma_blank_iff_trim_end_empty(l);
            lemma_trim_end_shape(l);
            let t = trim_end(l);
            assert(o == out + t + seq!['\n']);
            assert(t.len() > 0);
            assert forall|j: int| 0 <= j < t.len() implies #[trigger] t[j] != '\n' by {
                assert(t[j] == l[j]);
            }
            assert(t.last() != '\n');
            assert(o[o.len() - 2] == t.last());
            assert forall|i: int| 0 <= i && i + 2 < o.len() implies !#[trigger] blank_run_at(o, i) by {
                if i + 2 < out.len() {
                    assert(blank_run_at(out, i) == blank_run_at(o, i));
                } else if i + 2 < out.len() + t.len() {
                    assert(o[i + 2] == t[i + 2 - out.len()]);
                } else {
                    assert(o[i + 1] == t.last());
                }
            }
        }
    }
}

/// A newline at `i` follows another newline or a character other than whitespace.
pub open spec fn newline_ok_at(s: Seq<char>, i: int) -> bool {
    s[i] == '\n' ==> s[i - 1] == '\n' || !is_ws(s[i - 1])
}

/// No line of `s` ends in whitespace other than the newline itself.
pub open spec fn newlines_ok(s: Seq<char>) -> bool {
    forall|i: int| 0 < i < s.len() ==> #[trigger] newline_ok_at(s, i)
}

proof fn lemma_collapse_acc_newlines(ls: Seq<Seq<char>>)
    requires
        forall|k: int| 0 <= k < ls.len() ==> !(#[trigger] ls[k]).contains('\n'),
    ensures
        newlines_ok(collapse_acc(ls).0),
    decreases ls.len(),
{
    if ls.len() > 0 {
        let d = ls.drop_last();
        assert forall|k: int| 0 <= k < d.len() implies !(#[trigger] d[k]).contains('\n') by {
            assert(d[k] == ls[k]);
        }
        lemma_collapse_acc_newlines(d);
        lemma_collapse_acc_shape(d);
        let (out, prev) = collapse_acc(d);
        let l = ls.last();
        let o = collapse_acc(ls).0;
        if is_blank(l) {
            if !prev {
                assert(o == out.push('\n'));
                assert forall|i: int| 0 < i < o.len() implies #[trigger] newline_ok_at(o, i) by {
                    if i < out.len() {
                        assert(newline_ok_at(out, i) == newline_ok_at(o, i));
                    }
                }
            }
        } else {
            lemma_blank_iff_trim_end_empty(l);
            lemma_trim_end_shape(l);
            let t = trim_end(l);
            assert(o == out + t + seq!['\n']);
            assert forall|j: int| 0 <= j < t.len() implies #[trigger] t[j] != '\n' by {
                assert(t[j] == l[j]);
            }
            assert forall|i: int| 0 < i < o.len() implies #[trigger] newline_ok_at(o, i) by {
                if i < out.len() {
                    assert(newline_ok_at(out, i) == newline_ok_at(o, i));
                } else if i < out.len() + t.len() {
                    assert(o[i] == t[i - out.len()]);
                } else {
                    assert(o[i - 1] == t.last());
                }
            }
        }
    }
}

/// Text that went through blank-line collapsing has no two blank lines in a row,
/// and no whitespace at its start or end.
pub proof fn lemma_collapsed_tidy(t: Seq<char>)
    ensures
        no_blank_run(collapsed(t)),
        collapsed(t).len() > 0 ==> !is_ws(collapsed(t)[0]) && !is_ws(collapsed(t).last()),
        newlines_ok(collapsed(t)),
{
    lemma_lines_no_newline(t);
    lemma_collapse_acc_shape(lines(t));
    lemma_collapse_acc_newlines(lines(t));
    let o = collapse_acc(lines(t)).0;
    let (b, e) = lemma_trim_range(o);
    let r = collapsed(t);
    assert forall|i: int| 0 <= i && i + 2 < r.len() implies !#[trigger] blank_run_at(r, i) by {
        assert(blank_run_at(r, i) == blank_run_at(o, i + b));
    }
    assert forall|i: int| 0 < i < r.len() implies #[trigger] newline_ok_at(r, i) by {
        assert(newline_ok_at(o, i + b));
        assert(r[i] == o[i + b] && r[i - 1] == o[i + b - 1]);
    }
}

/// `normalize_markdown` leaves no two blank lines in a row and no surrounding
/// whitespace.
pub proof fn lemma_normalized_tidy(t: Seq<char>)
    ensures
        no_blank_run(normalized(t)),
        normalized(t).len() > 0 ==> !is_ws(normalized(t)[0]) && !is_ws(normalized(t).last()),
{
    lemma_collapsed_tidy(crlf_to_lf(t));
}

proof fn lemma_crlf_identity(s: Seq<char>)
    requires
        newlines_ok(s),
    ensures
        crlf_to_lf(s) == s,
    decreases s.len(),
{
    if s.len() > 0 {
        if s.len() >= 2 && s[1] == '\n' {
            assert(newline_ok_at(s, 1));
        }
        let r = s.skip(1);
        assert forall|i: int| 0 < i < r.len() implies #[trigger] newline_ok_at(r, i) by {
            assert(newline_ok_at(s, i + 1));
            assert(r[i] == s[i + 1] && r[i - 1] == s[i]);
        }
        lemma_crlf_identity(r);
        assert(seq![s[0]] + r =~= s);
    }
}

/// The state of collapsing after reading the first `i` characters of a tidy text:
/// everything up to the last newline has come out unchanged.
pub open spec fn tidy_prefix(s: Seq<char>, i: int) -> bool {
    let p = s.take(i);
    let (d, cur) = lines_acc(p);
    let (out, pb) = collapse_acc(d);
    let k = p.len() - cur.len();
    &&& cur.len() <= p.len()
    &&& cur == p.skip(k)
    &&& out == p.take(k)
    &&& (cur.len() > 0 ==> p.last() != '\n')
    &&& (d.len() > 0 ==> k >= 1 && p[k - 1] == '\n')
    &&& (pb ==> k >= 2 && p[k - 1] == '\n' && p[k - 2] == '\n')
}

proof fn lemma_tidy_prefix(s: Seq<char>, i: int)
    requires
        0 <= i <= s.len(),
        no_blank_run(s),
        newlines_ok(s),
        s.len() > 0 ==> !is_ws(s[0]),
    ensures
        tidy_prefix(s, i),
    decreases i,
{
    if i == 0 {
        let p = s.take(0);
        assert(p =~= Seq::<char>::empty());
        assert(lines_acc(p) == (Seq::<Seq<char>>::empty(), Seq::<char>::empty()));
        assert(p.skip(0) =~= p);
        assert(p.take(0) =~= p);
        assert(tidy_prefix(s, i));
    } else {
        lemma_tidy_prefix(s, i - 1);
        let p = s.take(i - 1);
        let q = s.take(i);
        let ch = s[i - 1];
        assert(q.drop_last() =~= p);
        assert(q.last() == ch);
        let (d, cur) = lines_acc(p);
        let (out, pb) = collapse_acc(d);
        let k = p.len() - cur.len();
        if ch != '\n' {
            assert(lines_acc(q) == (d, cur.push(ch)));
            assert(cur.push(ch) =~= q.skip(k));
            assert(q.take(k) =~= p.take(k));
            if d.len() > 0 {
                assert(q[k - 1] == p[k - 1]);
            }
            if pb {
                assert(q[k - 1] == p[k - 1] && q[k - 2] == p[k - 2]);
            }
            assert(tidy_prefix(s, i));
        } else {
            assert(lines_acc(q) == (d.push(strip_cr(cur)), Seq::<char>::empty()));
            let d2 = d.push(strip_cr(cur));
            assert(d2.drop_last() =~= d);
            assert(d2.last() == strip_cr(cur));
            assert(q.skip(q.len() as int) =~= Seq::<char>::empty());
            assert(q.take(q.len() as int) =~= q);
            if cur.len() > 0 {
                assert(cur.last() == p.last());
                assert(i >= 2);
                assert(newline_ok_at(s, i - 1));
                assert(s[i - 2] == p.last());
                assert(!is_ws(cur.last()));
                assert(strip_cr(cur) == cur);
                assert(trim_end(cur) == cur);
                lemma_blank_iff_trim_end_empty(cur);
                assert(!is_blank(cur));
                assert(collapse_acc(d2) == (out + cur + seq!['\n'], false));
                assert(out + cur + seq!['\n'] =~= q) by {
                    assert(p.take(k) + p.skip(k) =~= p);
                    assert(q =~= p.push('\n'));
                }
                assert(tidy_prefix(s, i));
            } else {
                assert(strip_cr(cur) =~= Seq::<char>::empty());
                assert(trim(Seq::<char>::empty()) =~= Seq::<char>::empty());
                assert(is_blank(strip_cr(cur)));
                if pb {
                    assert(blank_run_at(s, i - 3)) by {
                        assert(s[i - 2] == p[k - 1]);
                        assert(s[i - 3] == p[k - 2]);
                    }
                    assert(false);
                }
                assert(p.take(k) =~= p);
                assert(collapse_acc(d2) == (out.push('\n'), true));
                assert(out.push('\n') =~= q);
                if i == 1 {
                    assert(s[0] == '\n');
                    assert(false);
                }
                if d.len() == 0 {
                    assert(out =~= Seq::<char>::empty());
                    assert(p.len() == 0);
                }
                assert(q[i - 2] == p[k - 1]);
                assert(tidy_prefix(s, i));
            }
        }
    }
}

proof fn lemma_collapsed_identity(s: Seq<char>)
    requires
        no_blank_run(s),
        newlines_ok(s),
        s.len() > 0 ==> !is_ws(s[0]) && !is_ws(s.last()),
    ensures
        collapsed(s) == s,
{
    if s.len() == 0 {
        assert(lines(s) =~= Seq::<Seq<char>>::empty());
        assert(trim(Seq::<char>::empty()) =~= Seq::<char>::empty());
    } else {
        lemma_tidy_prefix(s, s.len() as int);
        assert(s.take(s.len() as int) =~= s);
        let (d, cur) = lines_acc(s);
        let (out, pb) = collapse_acc(d);
        let k = s.len() - cur.len();
        if cur.len() == 0 {
            if d.len() == 0 {
                assert(out =~= Seq::<char>::empty());
            }
            assert(s[s.len() - 1] == '\n');
            assert(false);
        }
        assert(cur.last() == s.last());
        let d2 = d.push(cur);
        assert(lines(s) == d2);
        assert(d2.drop_last() =~= d);
        assert(trim_end(cur) == cur);
        lemma_blank_iff_trim_end_empty(cur);
        assert(collapse_acc(d2).0 == out + cur + seq!['\n']);
        assert(out + cur + seq!['\n'] =~= s + seq!['\n']) by {
            assert(s.take(k) + s.skip(k) =~= s);
        }
        assert(trim_end(s + seq!['\n']) == trim_end(s)) by {
            assert((s + seq!['\n']).drop_last() =~= s);
        }
        assert(trim_end(s) == s);
        assert(crate::text::trim_start(s) == s);
    }
}

/// `normalize_markdown` is idempotent: normalising normalised text changes nothing.
pub proof fn lemma_normalized_idempotent(t: Seq<char>)
    ensures
        normalized(normalized(t)) == normalized(t),
{
    let o = normalized(t);
    lemma_collapsed_tidy(crlf_to_lf(t));
    lemma_crlf_identity(o);
    lemma_collapsed_identity(o);
}

fn crlf_to_lf_exec(v: &Vec<char>) -> (out: Vec<char>)
    ensures
        out@ == crlf_to_lf(v@),
{
    let mut out: Vec<char> = Vec::new();
    let mut i: usize = 0;
    let n = v.len();
    assert(v@.skip(0) =~= v@);
    while i < n
        invariant
            n == v@.len(),
            i <= n,
            out@ + crlf_to_lf(v@.skip(i as int)) == crlf_to_lf(v@),
        decreases n - i,
    {
        if i + 1 < n && v[i] == '\r' && v[i + 1] == '\n' {
            assert(v@.skip(i as int).skip(2) =~= v@.skip(i + 2 as int));
            out.push('\n');
            i = i + 2;
        } else {
            assert(v@.skip(i as int).skip(1) =~= v@.skip(i + 1 as int));
            out.push(v[i]);
            i = i + 1;
        }
        assert(out@ + crlf_to_lf(v@.skip(i as int)) =~= crlf_to_lf(v@));
    }
    assert(v@.skip(n as int) =~= Seq::<char>::empty());
    assert(out@ =~= out@ + crlf_to_lf(v@.skip(n as int)));
    out
}

/// The trimmed copy of a character vector.
fn trimmed(v: &Vec<char>) -> (out: Vec<char>)
    ensures
        out@ == trim(v@),
{
    let e = trim_end_index(v, 0, v.len());
    let b = trim_start_index(v, 0, e);
    assert(v@.subrange(0, v@.len() as int) =~= v@);
    let mut out: Vec<char> = Vec::new();
    push_range(&mut out, v, b, e);
    assert(out@ =~= v@.subrange(b as int, e as int));
    out
}

/// Collapse runs of blank lines of `v` and trim the result.
fn collapse_chars(v: &Vec<char>) -> (out: Vec<char>)
    ensures
        out@ == collapsed(v@),
{
    let r = line_ranges(v);
    let ghost ls = lines(v@);
    let mut out: Vec<char> = Vec::new();
    let mut prev_blank = false;
    let mut k: usize = 0;
    while k < r.len()
        invariant
            ranges_ok(v@, r@),
            slices(v@, r@) == ls,
            k <= r@.len(),
            (out@, prev_blank) == collapse_acc(ls.take(k as int)),
        decreases r.len() - k,
    {
        let (lo, hi) = r[k];
        assert(r@[k as int].0 <= r@[k as int].1 <= v@.len());
        let ghost l = v@.subrange(lo as int, hi as int);
        assert(ls[k as int] == l);
        assert(ls.take(k + 1 as int).drop_last() =~= ls.take(k as int));
        assert(ls.take(k + 1 as int).last() == l);
        let e = trim_end_index(v, lo, hi);
        proof {
            lemma_blank_iff_trim_end_empty(l);
        }
        if e == lo {
            if !prev_blank {
                out.push('\n');
            }
            prev_blank = true;
        } else {
            let ghost before = out@;
            push_range(&mut out, v, lo, e);
            out.push('\n');
            assert(out@ =~= before + trim_end(l) + seq!['\n']);
            prev_blank = false;
        }
        k = k + 1;
    }
    assert(ls.take(r@.len() as int) =~= ls);
    trimmed(&out)
}

/// Collapse consecutive blank lines into one and strip trailing whitespace from
/// each line, then trim the whole text.
pub fn collapse_blank_lines(text: &str) -> (out: String)
    ensures
        out@ == collapsed(text@),
{
    let v = chars_of(text);
    let o = collapse_chars(&v);
    string_from_chars(&o)
}

/// Normalise line endings to `\n`, collapse blank-line runs, strip trailing
/// whitespace from every line and trim the text.
pub fn normalize_markdown(text: &str) -> (out: String)
    ensures
        out@ == normalized(text@),
{
    let v = chars_of(text);
    let w = crlf_to_lf_exec(&v);
    let o = collapse_chars(&w);
    string_from_chars(&o)
}


/// `str::to_ascii_lowercase`.
pub open spec fn lowered(s: Seq<char>) -> Seq<char> {
    s.map_values(|c: char| lower(c))
}

pub open spec fn starts_with(s: Seq<char>, p: Seq<char>) -> bool {
    p.len() <= s.len() && s.take(p.len() as int) == p
}

/// `str::trim_start_matches('#')`.
pub open spec fn strip_hashes(s: Seq<char>) -> Seq<char>
    decreases s.len(),
{
    if s.len() > 0 && s[0] == '#' {
        strip_hashes(s.drop_first())
    } else {
        s
    }
}

pub open spec fn heading_key(line: Seq<char>) -> Seq<char> {
    lowered(trim(strip_hashes(trim(line))))
}

/// A heading that opens the back matter: references, bibliography or acknowledgments.
pub open spec fn reference_heading(line: Seq<char>) -> bool {
    let k = heading_key(line);
    ||| k == seq!['r', 'e', 'f', 'e', 'r', 'e', 'n', 'c', 'e', 's']
    ||| k == seq!['b', 'i', 'b', 'l', 'i', 'o', 'g', 'r', 'a', 'p', 'h', 'y']
    ||| k == seq!['a', 'c', 'k', 'n', 'o', 'w', 'l', 'e', 'd', 'g', 'm', 'e', 'n', 't', 's']
    ||| k == seq!['a', 'c', 'k', 'n', 'o', 'w', 'l', 'e', 'd', 'g', 'e', 'm', 'e', 'n', 't', 's']
    ||| starts_with(k, seq!['r', 'e', 'f', 'e', 'r', 'e', 'n', 'c', 'e', 's', ' ', 'a', 'n', 'd'])
    ||| starts_with(k, seq!['r', 'e', 'f', 'e', 'r', 'e', 'n', 'c', 'e', 's', ' ', '&'])
    ||| starts_with(
        k,
        seq!['r', 'e', 'f', 'e', 'r', 'e', 'n', 'c', 'e', 's', ' ', 'n', 'o', 't', 'e', 's'],
    )
    ||| starts_with(
        k,
        seq!['b', 'i', 'b', 'l', 'i', 'o', 'g', 'r', 'a', 'p', 'h', 'y', ' ', 'a', 'n', 'd'],
    )
}

proof fn lemma_lower_keeps_kind(c: char)
    ensures
        is_ws(lower(c)) == is_ws(c),
        (lower(c) == '#') == (c == '#'),
        lower(lower(c)) == lower(c),
{
}

proof fn lemma_lowered_trim_end(s: Seq<char>)
    ensures
        lowered(trim_end(s)) == trim_end(lowered(s)),
    decreases s.len(),
{
    if s.len() > 0 {
        lemma_lower_keeps_kind(s.last());
        assert(lowered(s).drop_last() =~= lowered(s.drop_last()));
        lemma_lowered_trim_end(s.drop_last());
    }
}

proof fn lemma_lowered_trim_start(s: Seq<char>)
    ensures
        lowered(crate::text::trim_start(s)) == crate::text::trim_start(lowered(s)),
    decreases s.len(),
{
    if s.len() > 0 {
        lemma_lower_keeps_kind(s[0]);
        assert(lowered(s).drop_first() =~= lowered(s.drop_first()));
        lemma_lowered_trim_start(s.drop_first());
    }
}

proof fn lemma_lowered_strip_hashes(s: Seq<char>)
    ensures
        lowered(strip_hashes(s)) == strip_hashes(lowered(s)),
    decreases s.len(),
{
    if s.len() > 0 {
        lemma_lower_keeps_kind(s[0]);
        assert(lowered(s).drop_first() =~= lowered(s.drop_first()));
        lemma_lowered_strip_hashes(s.drop_first());
    }
}

proof fn lemma_heading_key_of_lowered(x: Seq<char>)
    ensures
        heading_key(x) == trim(strip_hashes(trim(lowered(x)))),
{
    lemma_lowered_trim_end(x);
    lemma_lowered_trim_start(trim_end(x));
    lemma_lowered_strip_hashes(trim(x));
    let m = strip_hashes(trim(x));
    lemma_lowered_trim_end(m);
    lemma_lowered_trim_start(trim_end(m));
}

proof fn lemma_trim_end_after(a: Seq<char>, b: Seq<char>)
    requires
        a.len() > 0,
        !is_ws(a.last()),
    ensures
        trim_end(a + b) == a + trim_end(b),
    decreases b.len(),
{
    if b.len() == 0 {
        assert(a + b =~= a);
        assert(a + trim_end(b) =~= a);
    } else {
        assert((a + b).drop_last() =~= a + b.drop_last());
        lemma_trim_end_after(a, b.drop_last());
        if !is_ws(b.last()) {
            assert(trim_end(b) == b);
        }
    }
}

proof fn lemma_trim_idempotent(s: Seq<char>)
    ensures
        trim(trim(s)) == trim(s),
{
    let t = trim(s);
    crate::text::lemma_trim_range(s);
    if t.len() > 0 {
        assert(trim_end(t) == t);
        assert(crate::text::trim_start(t) == t);
    } else {
        assert(trim_end(t) == t);
    }
}

/// What counts as a back-matter heading ignores ASCII case, and a line that does not
/// start with `#` is a heading exactly when it is one under a `### ` prefix.
pub proof fn lemma_reference_heading_forms(x: Seq<char>, y: Seq<char>)
    ensures
        lowered(x) == lowered(y) ==> reference_heading(x) == reference_heading(y),
        (trim(x).len() == 0 || trim(x)[0] != '#') ==> reference_heading(seq!['#', '#', '#', ' '] + x)
            == reference_heading(x),
{
    lemma_heading_key_of_lowered(x);
    lemma_heading_key_of_lowered(y);
    if trim(x).len() == 0 || trim(x)[0] != '#' {
        let pre = seq!['#', '#', '#', ' '];
        let h = pre + x;
        let te = trim_end(x);
        lemma_trim_end_shape(x);
        lemma_trim_idempotent(x);
        assert(strip_hashes(trim(x)) == trim(x));
        if te.len() > 0 {
            lemma_trim_end_after(pre + te, x.skip(te.len() as int));
            assert(x =~= te + x.skip(te.len() as int));
            assert(h =~= (pre + te) + x.skip(te.len() as int));
            assert(trim_end(x.skip(te.len() as int)).len() == 0) by {
                crate::text::lemma_blank_iff_trim_end_empty(x.skip(te.len() as int));
                let z = x.skip(te.len() as int);
                if trim_end(z).len() > 0 {
                    lemma_trim_end_shape(z);
                    assert(z[trim_end(z).len() - 1] == trim_end(z).last());
                }
            }
            assert(trim_end(h) =~= pre + te);
            assert(crate::text::trim_start(pre + te) == pre + te);
            assert(trim(h) == pre + te);
            let a0 = pre + te;
            let a1 = seq!['#', '#', ' '] + te;
            let a2 = seq!['#', ' '] + te;
            let a3 = seq![' '] + te;
            assert(a0.drop_first() =~= a1);
            assert(a1.drop_first() =~= a2);
            assert(a2.drop_first() =~= a3);
            assert(strip_hashes(a3) == a3);
            assert(strip_hashes(a2) == a3);
            assert(strip_hashes(a1) == a3);
            assert(strip_hashes(a0) == a3);
            assert(strip_hashes(trim(h)) == seq![' '] + te);
            assert(trim_end(seq![' '] + te) == seq![' '] + te) by {
                assert(!is_ws(te.last()));
                assert((seq![' '] + te).last() == te.last());
            }
            assert((seq![' '] + te).drop_first() =~= te);
            assert(trim(seq![' '] + te) == crate::text::trim_start(te));
            assert(heading_key(h) == heading_key(x));
        } else {
            assert(trim_end(x).len() == 0);
            assert(trim(x).len() == 0);
            assert forall|i: int| 0 <= i < x.len() implies is_ws(#[trigger] x[i]) by {
                assert(x.skip(0)[i] == x[i]);
            }
            assert(trim_end(h) == seq!['#', '#', '#']) by {
                assert(h =~= seq!['#', '#', '#'] + (seq![' '] + x));
                assert forall|i: int| 0 <= i < (seq![' '] + x).len() implies is_ws(
                    #[trigger] (seq![' '] + x)[i],
                ) by {
                    if i > 0 {
                        assert((seq![' '] + x)[i] == x[i - 1]);
                    }
                }
                lemma_trim_end_all_ws(seq!['#', '#', '#'], seq![' '] + x);
            }
            assert(trim(h) == seq!['#', '#', '#']);
            let b0 = seq!['#', '#', '#'];
            assert(b0.drop_first() =~= seq!['#', '#']);
            assert(seq!['#', '#'].drop_first() =~= seq!['#']);
            assert(seq!['#'].drop_first() =~= Seq::<char>::empty());
            assert(strip_hashes(Seq::<char>::empty()) =~= Seq::<char>::empty());
            assert(strip_hashes(seq!['#']) =~= Seq::<char>::empty());
            assert(strip_hashes(seq!['#', '#']) =~= Seq::<char>::empty());
            assert(strip_hashes(b0) =~= Seq::<char>::empty());
            assert(strip_hashes(trim(h)) =~= Seq::<char>::empty());
            assert(heading_key(h) =~= Seq::<char>::empty());
            assert(heading_key(x) =~= Seq::<char>::empty());
        }
    }
}

proof fn lemma_trim_end_all_ws(a: Seq<char>, b: Seq<char>)
    requires
        forall|i: int| 0 <= i < b.len() ==> is_ws(#[trigger] b[i]),
    ensures
        trim_end(a + b) == trim_end(a),
    decreases b.len(),
{
    if b.len() == 0 {
        assert(a + b =~= a);
    } else {
        assert((a + b).drop_last() =~= a + b.drop_last());
        assert(is_ws(b[b.len() - 1]));
        lemma_trim_end_all_ws(a, b.drop_last());
    }
}

/// A boilerplate line (arXiv stamp, copyright or preprint notice, availability note).
pub open spec fn noise_line(line: Seq<char>) -> bool {
    let k = lowered(line);
    &&& line.len() > 0
    &&& {
        ||| starts_with(k, seq!['a', 'r', 'x', 'i', 'v', ':'])
        ||| starts_with(k, seq!['c', 'o', 'p', 'y', 'r', 'i', 'g', 'h', 't'])
        ||| starts_with(k, seq!['p', 'r', 'e', 'p', 'r', 'i', 'n', 't'])
        ||| starts_with(k, seq!['a', 'v', 'a', 'i', 'l', 'a', 'b', 'l', 'e', ' ', 'a', 't'])
    }
}

/// Whether the lowercase form of `v[lo..lo + lit.len()]` is `lit`.
fn lower_prefix_is(v: &Vec<char>, lo: usize, hi: usize, lit: &[char]) -> (r: bool)
    requires
        lo <= hi <= v@.len(),
    ensures
        r == starts_with(lowered(v@.subrange(lo as int, hi as int)), lit@),
{
    let ghost s = lowered(v@.subrange(lo as int, hi as int));
    if lit.len() > hi - lo {
        return false;
    }
    let mut i: usize = 0;
    while i < lit.len()
        invariant
            lo <= hi <= v@.len(),
            lit@.len() <= hi - lo,
            s == lowered(v@.subrange(lo as int, hi as int)),
            i <= lit@.len(),
            forall|j: int| 0 <= j < i ==> s[j] == lit@[j],
        decreases lit.len() - i,
    {
        if ascii_lower(v[lo + i]) != lit[i] {
            assert(s.take(lit@.len() as int)[i as int] != lit@[i as int]);
            return false;
        }
        i = i + 1;
    }
    assert(s.take(lit@.len() as int) =~= lit@);
    true
}

/// Whether the lowercase form of `v[lo..hi]` is exactly `lit`.
fn lower_is(v: &Vec<char>, lo: usize, hi: usize, lit: &[char]) -> (r: bool)
    requires
        lo <= hi <= v@.len(),
    ensures
        r == (lowered(v@.subrange(lo as int, hi as int)) == lit@),
{
    let ghost s = lowered(v@.subrange(lo as int, hi as int));
    if lit.len() != hi - lo {
        assert(s.len() != lit@.len());
        return false;
    }
    let r = lower_prefix_is(v, lo, hi, lit);
    assert(s.take(lit@.len() as int) =~= s);
    r
}

/// Whether line `v[lo..hi]` is a back-matter heading.
fn is_reference_heading(v: &Vec<char>, lo: usize, hi: usize) -> (r: bool)
    requires
        lo <= hi <= v@.len(),
    ensures
        r == reference_heading(v@.subrange(lo as int, hi as int)),
{
    let ghost line = v@.subrange(lo as int, hi as int);
    let e1 = trim_end_index(v, lo, hi);
    let b1 = trim_start_index(v, lo, e1);
    assert(v@.subrange(b1 as int, e1 as int) == trim(line));
    let mut b2 = b1;
    while b2 < e1 && v[b2] == '#'
        invariant
            b1 <= b2 <= e1 <= v@.len(),
            strip_hashes(v@.subrange(b2 as int, e1 as int)) == strip_hashes(trim(line)),
        decreases e1 - b2,
    {
        assert(v@.subrange(b2 as int, e1 as int).drop_first() =~= v@.subrange(
            b2 + 1 as int,
            e1 as int,
        ));
        b2 = b2 + 1;
    }
    let e3 = trim_end_index(v, b2, e1);
    let b3 = trim_start_index(v, b2, e3);
    assert(v@.subrange(b3 as int, e3 as int) == trim(strip_hashes(trim(line))));
    lower_is(v, b3, e3, &['r', 'e', 'f', 'e', 'r', 'e', 'n', 'c', 'e', 's'])
        || lower_is(v, b3, e3, &['b', 'i', 'b', 'l', 'i', 'o', 'g', 'r', 'a', 'p', 'h', 'y'])
        || lower_is(
        v,
        b3,
        e3,
        &['a', 'c', 'k', 'n', 'o', 'w', 'l', 'e', 'd', 'g', 'm', 'e', 'n', 't', 's'],
    ) || lower_is(
        v,
        b3,
        e3,
        &['a', 'c', 'k', 'n', 'o', 'w', 'l', 'e', 'd', 'g', 'e', 'm', 'e', 'n', 't', 's'],
    ) || lower_prefix_is(
        v,
        b3,
        e3,
        &['r', 'e', 'f', 'e', 'r', 'e', 'n', 'c', 'e', 's', ' ', 'a', 'n', 'd'],
    ) || lower_prefix_is(v, b3, e3, &['r', 'e', 'f', 'e', 'r', 'e', 'n', 'c', 'e', 's', ' ', '&'])
        || lower_prefix_is(
        v,
        b3,
        e3,
        &['r', 'e', 'f', 'e', 'r', 'e', 'n', 'c', 'e', 's', ' ', 'n', 'o', 't', 'e', 's'],
    ) || lower_prefix_is(
        v,
        b3,
        e3,
        &['b', 'i', 'b', 'l', 'i', 'o', 'g', 'r', 'a', 'p', 'h', 'y', ' ', 'a', 'n', 'd'],
    )
}

/// Whether line `v[lo..hi]` is boilerplate.
fn is_noise_line(v: &Vec<char>, lo: usize, hi: usize) -> (r: bool)
    requires
        lo <= hi <= v@.len(),
    ensures
        r == noise_line(v@.subrange(lo as int, hi as int)),
{
    if lo == hi {
        return false;
    }
    lower_prefix_is(v, lo, hi, &['a', 'r', 'x', 'i', 'v', ':']) || lower_prefix_is(
        v,
        lo,
        hi,
        &['c', 'o', 'p', 'y', 'r', 'i', 'g', 'h', 't'],
    ) || lower_prefix_is(v, lo, hi, &['p', 'r', 'e', 'p', 'r', 'i', 'n', 't']) || lower_prefix_is(
        v,
        lo,
        hi,
        &['a', 'v', 'a', 'i', 'l', 'a', 'b', 'l', 'e', ' ', 'a', 't'],
    )
}


/// The lines that survive pruning: everything before the first back-matter heading
/// (when `prune` is set), without boilerplate lines, each with trailing whitespace removed.
pub open spec fn kept_lines(ls: Seq<Seq<char>>, prune: bool) -> Seq<Seq<char>>
    decreases ls.len(),
{
    if ls.len() == 0 {
        seq![]
    } else if prune && reference_heading(trim(ls[0])) {
        seq![]
    } else if noise_line(trim(ls[0])) {
        kept_lines(ls.drop_first(), prune)
    } else {
        seq![trim_end(ls[0])] + kept_lines(ls.drop_first(), prune)
    }
}

/// `join("\n")`.
pub open spec fn join_lines(ls: Seq<Seq<char>>) -> Seq<char>
    decreases ls.len(),
{
    if ls.len() == 0 {
        seq![]
    } else if ls.len() == 1 {
        ls[0]
    } else {
        join_lines(ls.drop_last()) + seq!['\n'] + ls.last()
    }
}

/// What `prune_markdown` returns for text `t`.
pub open spec fn pruned(t: Seq<char>, prune: bool) -> Seq<char> {
    collapsed(trim(join_lines(kept_lines(lines(t), prune))))
}

/// `prune_markdown` leaves no two blank lines in a row and no surrounding whitespace.
pub proof fn lemma_pruned_tidy(t: Seq<char>, prune: bool)
    ensures
        no_blank_run(pruned(t, prune)),
        pruned(t, prune).len() > 0 ==> !is_ws(pruned(t, prune)[0]) && !is_ws(pruned(t, prune).last()),
{
    lemma_collapsed_tidy(trim(join_lines(kept_lines(lines(t), prune))));
}

/// Reading one more character into the lines finished so far and the line in progress.
pub open spec fn line_step(st: (Seq<Seq<char>>, Seq<char>), c: char) -> (Seq<Seq<char>>, Seq<char>) {
    if c == '\n' {
        (st.0.push(strip_cr(st.1)), seq![])
    } else {
        (st.0, st.1.push(c))
    }
}

/// Reading `b` into the state `st`.
pub open spec fn lines_from(st: (Seq<Seq<char>>, Seq<char>), b: Seq<char>) -> (Seq<Seq<char>>, Seq<char>)
    decreases b.len(),
{
    if b.len() == 0 {
        st
    } else {
        line_step(lines_from(st, b.drop_last()), b.last())
    }
}

proof fn lemma_lines_acc_concat(a: Seq<char>, b: Seq<char>)
    ensures
        lines_acc(a + b) == lines_from(lines_acc(a), b),
    decreases b.len(),
{
    if b.len() == 0 {
        assert(a + b =~= a);
    } else {
        assert((a + b).drop_last() =~= a + b.drop_last());
        assert((a + b).last() == b.last());
        lemma_lines_acc_concat(a, b.drop_last());
    }
}

proof fn lemma_lines_from_concat(st: (Seq<Seq<char>>, Seq<char>), b: Seq<char>, c: Seq<char>)
    ensures
        lines_from(st, b + c) == lines_from(lines_from(st, b), c),
    decreases c.len(),
{
    if c.len() == 0 {
        assert(b + c =~= b);
    } else {
        assert((b + c).drop_last() =~= b + c.drop_last());
        assert((b + c).last() == c.last());
        lemma_lines_from_concat(st, b, c.drop_last());
    }
}

proof fn lemma_lines_from_no_newline(d: Seq<Seq<char>>, cur: Seq<char>, h: Seq<char>)
    requires
        !h.contains('\n'),
    ensures
        lines_from((d, cur), h) == (d, cur + h),
    decreases h.len(),
{
    if h.len() == 0 {
        assert(cur + h =~= cur);
    } else {
        assert(!h.drop_last().contains('\n')) by {
            if h.drop_last().contains('\n') {
                let j = choose|j: int| 0 <= j < h.drop_last().len() && h.drop_last()[j] == '\n';
                assert(h[j] == '\n');
            }
        }
        assert(h[h.len() - 1] != '\n');
        lemma_lines_from_no_newline(d, cur, h.drop_last());
        assert((cur + h.drop_last()).push(h.last()) =~= cur + h);
    }
}

proof fn lemma_lines_from_fresh(d: Seq<Seq<char>>, s: Seq<char>)
    ensures
        lines_from((d, seq![]), s) == (d + lines_acc(s).0, lines_acc(s).1),
    decreases s.len(),
{
    if s.len() == 0 {
        assert(d + Seq::<Seq<char>>::empty() =~= d);
    } else {
        lemma_lines_from_fresh(d, s.drop_last());
        let a = lines_acc(s.drop_last());
        if s.last() == '\n' {
            assert((d + a.0).push(strip_cr(a.1)) =~= d + a.0.push(strip_cr(a.1)));
        }
    }
}

proof fn lemma_lines_from_newline(st: (Seq<Seq<char>>, Seq<char>))
    ensures
        lines_from(st, seq!['\n']) == (st.0.push(strip_cr(st.1)), Seq::<char>::empty()),
{
    let b = seq!['\n'];
    assert(b.drop_last() =~= Seq::<char>::empty());
    assert(lines_from(st, b.drop_last()) == st);
    assert(b.last() == '\n');
}

/// Some line of `ls` is a back-matter heading (and pruning is on).
pub open spec fn heading_in(ls: Seq<Seq<char>>, prune: bool) -> bool {
    prune && exists|i: int| 0 <= i < ls.len() && reference_heading(trim(#[trigger] ls[i]))
}

proof fn lemma_kept_lines_append(d: Seq<Seq<char>>, e: Seq<Seq<char>>, prune: bool)
    ensures
        kept_lines(d + e, prune) == (if heading_in(d, prune) {
            kept_lines(d, prune)
        } else {
            kept_lines(d, prune) + kept_lines(e, prune)
        }),
    decreases d.len(),
{
    if d.len() == 0 {
        assert(d + e =~= e);
        assert(Seq::<Seq<char>>::empty() + kept_lines(e, prune) =~= kept_lines(e, prune));
    } else {
        assert((d + e)[0] == d[0]);
        assert((d + e).drop_first() =~= d.drop_first() + e);
        lemma_kept_lines_append(d.drop_first(), e, prune);
        if prune && reference_heading(trim(d[0])) {
            assert(heading_in(d, prune));
        } else {
            assert(heading_in(d, prune) == heading_in(d.drop_first(), prune)) by {
                if heading_in(d, prune) {
                    let i = choose|i: int| 0 <= i < d.len() && reference_heading(trim(#[trigger] d[i]));
                    assert(d.drop_first()[i - 1] == d[i]);
                }
                if heading_in(d.drop_first(), prune) {
                    let i = choose|i: int| 0 <= i < d.drop_first().len() && reference_heading(
                        trim(#[trigger] d.drop_first()[i]),
                    );
                    assert(d[i + 1] == d.drop_first()[i]);
                }
            }
            if !noise_line(trim(d[0])) {
                assert(seq![trim_end(d[0])] + kept_lines(d.drop_first(), prune) + kept_lines(e, prune)
                    =~= seq![trim_end(d[0])] + (kept_lines(d.drop_first(), prune) + kept_lines(e, prune)));
            }
        }
    }
}

proof fn lemma_trim_strip_cr(x: Seq<char>)
    ensures
        trim_end(strip_cr(x)) == trim_end(x),
        trim(strip_cr(x)) == trim(x),
{
}

/// With pruning on, nothing from the first back-matter heading line on matters: text
/// `t`, then a heading line `h`, then anything, prunes to what `t` alone prunes to.
pub proof fn lemma_pruned_ignores_back_matter(t: Seq<char>, h: Seq<char>, s: Seq<char>)
    requires
        !h.contains('\n'),
        reference_heading(h),
    ensures
        pruned(t + seq!['\n'] + h + seq!['\n'] + s, true) == pruned(t, true),
{
    let x = t + seq!['\n'] + h + seq!['\n'] + s;
    let lt = lines_acc(t);
    let d = lt.0;
    let c = lt.1;
    lemma_lines_acc_concat(t, seq!['\n'] + h + seq!['\n'] + s);
    assert(x =~= t + (seq!['\n'] + h + seq!['\n'] + s));
    let st0 = lines_from(lt, seq!['\n']);
    lemma_lines_from_newline(lt);
    lemma_lines_from_concat(lt, seq!['\n'], h + seq!['\n'] + s);
    assert(seq!['\n'] + h + seq!['\n'] + s =~= seq!['\n'] + (h + seq!['\n'] + s));
    lemma_lines_from_concat(st0, h, seq!['\n'] + s);
    assert(h + seq!['\n'] + s =~= h + (seq!['\n'] + s));
    lemma_lines_from_no_newline(d.push(strip_cr(c)), Seq::<char>::empty(), h);
    let st1 = (d.push(strip_cr(c)), Seq::<char>::empty() + h);
    assert(Seq::<char>::empty() + h =~= h);
    lemma_lines_from_concat(st1, seq!['\n'], s);
    let dd = d.push(strip_cr(c)).push(strip_cr(h));
    lemma_lines_from_newline(st1);
    lemma_lines_from_fresh(dd, s);
    let ls = lines(x);
    assert(ls =~= dd + lines(s)) by {
        let la = lines_acc(s);
        if la.1.len() > 0 {
            assert((dd + la.0).push(la.1) =~= dd + la.0.push(la.1));
        }
    }
    // The heading line cuts everything after it.
    let k = d.len() + 1int;
    lemma_trim_strip_cr(h);
    lemma_trim_idempotent(h);
    assert(heading_key(trim(h)) == heading_key(h));
    assert(ls[k] == strip_cr(h));
    assert(reference_heading(trim(ls[k])));
    lemma_kept_lines_append(d.push(strip_cr(c)), seq![strip_cr(h)] + lines(s), true);
    assert(ls =~= d.push(strip_cr(c)) + (seq![strip_cr(h)] + lines(s)));
    assert(kept_lines(seq![strip_cr(h)] + lines(s), true) == Seq::<Seq<char>>::empty()) by {
        assert((seq![strip_cr(h)] + lines(s))[0] == strip_cr(h));
    }
    lemma_kept_lines_append(d, seq![strip_cr(c)], true);
    lemma_trim_strip_cr(c);
    let kd = kept_lines(d, true);
    let dp = d.push(strip_cr(c));
    assert(dp =~= d + seq![strip_cr(c)]);
    if !heading_in(dp, true) {
        assert(kept_lines(dp, true) + Seq::<Seq<char>>::empty() =~= kept_lines(dp, true));
    }
    assert(kept_lines(ls, true) == kept_lines(dp, true));
    assert(kept_lines(ls, true) == (if heading_in(d, true) {
        kd
    } else {
        kd + kept_lines(seq![strip_cr(c)], true)
    }));
    let kc = kept_lines(seq![strip_cr(c)], true);
    if c.len() > 0 {
        assert(lines(t) == d.push(c));
        lemma_kept_lines_append(d, seq![c], true);
        assert(d.push(c) =~= d + seq![c]);
        assert(kept_lines(seq![c], true) == kc) by {
            assert(seq![c].drop_first() =~= Seq::<Seq<char>>::empty());
            assert(seq![strip_cr(c)].drop_first() =~= Seq::<Seq<char>>::empty());
        }
    } else {
        assert(lines(t) == d);
        assert(strip_cr(c) =~= Seq::<char>::empty());
        assert(kc == seq![Seq::<char>::empty()]) by {
            let e = Seq::<char>::empty();
            assert(seq![strip_cr(c)] =~= seq![e]);
            assert(trim_end(e) =~= e);
            assert(strip_hashes(e) =~= e);
            assert(lowered(e) =~= e);
            assert(heading_key(e) =~= e);
            assert(seq![e].drop_first() =~= Seq::<Seq<char>>::empty());
            assert(trim(e) =~= e);
            assert(!noise_line(e));
            assert(!reference_heading(e));
            let l = seq![e];
            assert(l[0] == e);
            assert(!reference_heading(trim(l[0])));
            assert(!noise_line(trim(l[0])));
            assert(kept_lines(l.drop_first(), true) == Seq::<Seq<char>>::empty());
            assert(kept_lines(l, true) == seq![trim_end(l[0])] + kept_lines(l.drop_first(), true));
            assert(seq![e] + Seq::<Seq<char>>::empty() =~= seq![e]);
            assert(kept_lines(l, true) == seq![e]);
            assert(kc == kept_lines(l, true));
        }
        if !heading_in(d, true) {
            let jd = join_lines(kd);
            let jx = join_lines(kd + kc);
            assert(trim(jx) == trim(jd)) by {
                if kd.len() == 0 {
                    assert(kd + kc =~= kc);
                    assert(jx =~= Seq::<char>::empty());
                } else {
                    assert((kd + kc).drop_last() =~= kd);
                    assert(jx == jd + seq!['\n'] + Seq::<char>::empty());
                    assert(jd + seq!['\n'] + Seq::<char>::empty() =~= jd + seq!['\n']);
                    lemma_trim_end_all_ws(jd, seq!['\n']);
                }
            }
        }
    }
}

proof fn lemma_kept_lines_step(ls: Seq<Seq<char>>, k: int, prune: bool)
    requires
        0 <= k < ls.len(),
    ensures
        kept_lines(ls.skip(k), prune) == (if prune && reference_heading(trim(ls[k])) {
            seq![]
        } else if noise_line(trim(ls[k])) {
            kept_lines(ls.skip(k + 1), prune)
        } else {
            seq![trim_end(ls[k])] + kept_lines(ls.skip(k + 1), prune)
        }),
{
    assert(ls.skip(k).drop_first() =~= ls.skip(k + 1));
    assert(ls.skip(k)[0] == ls[k]);
}

proof fn lemma_join_push(ls: Seq<Seq<char>>, l: Seq<char>)
    ensures
        join_lines(ls.push(l)) == if ls.len() == 0 {
            l
        } else {
            join_lines(ls) + seq!['\n'] + l
        },
{
    assert(ls.push(l).drop_last() =~= ls);
}

/// Remove back matter (from the first references, bibliography or acknowledgments
/// heading on, when `prune_references` is set) and boilerplate lines, then collapse
/// blank-line runs.
pub fn prune_markdown(text: &str, prune_references: bool) -> (out: String)
    ensures
        out@ == pruned(text@, prune_references),
{
    let v = chars_of(text);
    let r = line_ranges(&v);
    let ghost ls = lines(v@);
    let ghost mut acc: Seq<Seq<char>> = seq![];
    let mut joined: Vec<char> = Vec::new();
    let mut any = false;
    let mut k: usize = 0;
    assert(ls.skip(0) =~= ls);
    while k < r.len()
        invariant
            ranges_ok(v@, r@),
            slices(v@, r@) == ls,
            k <= r@.len(),
            acc + kept_lines(ls.skip(k as int), prune_references) == kept_lines(
                ls,
                prune_references,
            ),
            joined@ == join_lines(acc),
            any == (acc.len() > 0),
        decreases r.len() - k,
    {
        let (lo, hi) = r[k];
        assert(r@[k as int].0 <= r@[k as int].1 <= v@.len());
        let ghost l = v@.subrange(lo as int, hi as int);
        assert(ls[k as int] == l);
        proof {
            lemma_kept_lines_step(ls, k as int, prune_references);
        }
        let e = trim_end_index(&v, lo, hi);
        let b = trim_start_index(&v, lo, e);
        assert(v@.subrange(b as int, e as int) == trim(l));
        if prune_references && is_reference_heading(&v, b, e) {
            assert(acc =~= acc + kept_lines(ls.skip(k as int), prune_references));
            assert(kept_lines(ls, prune_references) == acc);
            k = r.len();
            assert(ls.skip(k as int) =~= Seq::<Seq<char>>::empty());
        } else {
            if !is_noise_line(&v, b, e) {
                proof {
                    lemma_join_push(acc, trim_end(l));
                }
                if any {
                    joined.push('\n');
                }
                any = true;
                push_range(&mut joined, &v, lo, e);
                proof {
                    assert(acc.push(trim_end(l)) + kept_lines(ls.skip(k + 1), prune_references)
                        =~= acc + (seq![trim_end(l)] + kept_lines(
                        ls.skip(k + 1),
                        prune_references,
                    )));
                    acc = acc.push(trim_end(l));
                }
            }
            k = k + 1;
        }
    }
    assert(ls.skip(r@.len() as int) =~= Seq::<Seq<char>>::empty());
    assert(acc =~= acc + kept_lines(ls.skip(r@.len() as int), prune_references));
    let t = trimmed(&joined);
    let o = collapse_chars(&t);
    string_from_chars(&o)
}


/// A span of paper text, by character offsets.
#[derive(Debug, Clone, PartialEq, Eq)]
pub struct PaperChunk {
    pub index: usize,
    pub start_char: usize,
    pub end_char: usize,
    pub text: String,
    pub cluster_id: Option<String>,
    pub parent_id: Option<String>,
}

/// A chunk together with the paper it was taken from.
#[derive(Debug, Clone, PartialEq, Eq)]
pub struct CrossDocumentPaperChunk {
    pub paper_id: String,
    pub chunk: PaperChunk,
}

/// Is there a paragraph break (`\n\n`) at `i`?
pub open spec fn para_at(c: Seq<char>, i: int) -> bool {
    c[i] == '\n' && i + 1 < c.len() && c[i + 1] == '\n'
}

/// Is there a sentence end (`. `) at `i`?
pub open spec fn sentence_at(c: Seq<char>, i: int) -> bool {
    c[i] == '.' && i + 1 < c.len() && c[i + 1] == ' '
}

pub open spec fn space_at(c: Seq<char>, i: int) -> bool {
    c[i] == ' '
}

/// The largest `i` in `lo..hi` with a paragraph break (`kind` 0), a sentence end (`kind` 1)
/// or a space (`kind` 2) at it.
pub open spec fn last_at(c: Seq<char>, lo: int, hi: int, kind: int) -> Option<int>
    decreases hi - lo,
{
    if hi <= lo {
        None
    } else if (kind == 0 && para_at(c, hi - 1)) || (kind == 1 && sentence_at(c, hi - 1)) || (
    kind == 2 && space_at(c, hi - 1)) {
        Some(hi - 1)
    } else {
        last_at(c, lo, hi - 1, kind)
    }
}

/// Where a window `start..end` of at least 100 characters is cut: at the last paragraph
/// break in its final 40%, else just after the last sentence end there, else at the
/// last space there; shorter windows are taken whole (`None`).
pub open spec fn break_point(c: Seq<char>, start: int, end: int) -> Option<int> {
    if end - start < 100 {
        None
    } else {
        let ss = start + (end - start) * 6 / 10;
        match last_at(c, ss, end - 1, 0) {
            Some(i) => Some(i),
            None => match last_at(c, ss, end - 1, 1) {
                Some(i) => Some(i + 1),
                None => last_at(c, ss, end, 2),
            },
        }
    }
}

/// The end of the window that starts at `start`.
pub open spec fn window_end(c: Seq<char>, start: int, chunk_chars: int) -> int {
    let end = if start + chunk_chars < c.len() {
        start + chunk_chars
    } else {
        c.len() as int
    };
    match break_point(c, start, end) {
        Some(b) => b,
        None => end,
    }
}

/// Where the next window starts: `overlap` characters before the end of this one,
/// but always at least one character further on.
pub open spec fn next_start(c: Seq<char>, start: int, chunk_chars: int, overlap: int) -> int {
    let ae = window_end(c, start, chunk_chars);
    if ae <= start {
        start + 1
    } else {
        let step = ae - start;
        let back = if overlap < step - 1 {
            overlap
        } else {
            step - 1
        };
        ae - back
    }
}

/// The spans of the non-blank windows from `start` on.
pub open spec fn chunk_spans(c: Seq<char>, start: int, chunk_chars: int, overlap: int) -> Seq<
    (int, int),
>
    decreases (if start < c.len() {
        c.len() - start
    } else {
        0
    }),
{
    if start < 0 || start >= c.len() {
        seq![]
    } else {
        let ae = window_end(c, start, chunk_chars);
        let rest = chunk_spans(c, next_start(c, start, chunk_chars, overlap), chunk_chars, overlap);
        if 0 <= start <= ae <= c.len() && !is_blank(c.subrange(start, ae)) {
            seq![(start, ae)] + rest
        } else {
            rest
        }
    }
}

/// Chunk number `k` covers span `sp` of `c`, with no cluster or parent.
pub open spec fn chunk_is(ch: PaperChunk, k: int, sp: (int, int), c: Seq<char>) -> bool {
    &&& ch.index == k
    &&& ch.start_char == sp.0
    &&& ch.end_char == sp.1
    &&& 0 <= sp.0 <= sp.1 <= c.len()
    &&& ch.text@ == c.subrange(sp.0, sp.1)
    &&& ch.cluster_id is None
    &&& ch.parent_id is None
}

/// The spans `chunk_text` cuts `c` into.
pub open spec fn chunks_of(c: Seq<char>, chunk_chars: int, overlap: int) -> Seq<(int, int)> {
    if is_blank(c) {
        seq![]
    } else {
        chunk_spans(c, 0, chunk_chars, overlap)
    }
}

fn last_at_exec(c: &Vec<char>, lo: usize, hi: usize, kind: u8) -> (r: Option<usize>)
    requires
        lo <= hi <= c@.len(),
        kind <= 2,
    ensures
        match r {
            Some(i) => last_at(c@, lo as int, hi as int, kind as int) == Some(i as int) && lo <= i
                < hi,
            None => last_at(c@, lo as int, hi as int, kind as int) is None,
        },
{
    let mut j = hi;
    while j > lo
        invariant
            lo <= j <= hi <= c@.len(),
            kind <= 2,
            last_at(c@, lo as int, hi as int, kind as int) == last_at(
                c@,
                lo as int,
                j as int,
                kind as int,
            ),
        decreases j,
    {
        let i = j - 1;
        let hit = if kind == 0 {
            c[i] == '\n' && i + 1 < c.len() && c[i + 1] == '\n'
        } else if kind == 1 {
            c[i] == '.' && i + 1 < c.len() && c[i + 1] == ' '
        } else {
            c[i] == ' '
        };
        if hit {
            return Some(i);
        }
        assert(last_at(c@, lo as int, j as int, kind as int) == last_at(
            c@,
            lo as int,
            i as int,
            kind as int,
        ));
        j = i;
    }
    None
}

proof fn lemma_last_at_range(c: Seq<char>, lo: int, hi: int, kind: int)
    ensures
        last_at(c, lo, hi, kind) matches Some(i) ==> lo <= i < hi,
    decreases hi - lo,
{
    if hi > lo {
        lemma_last_at_range(c, lo, hi - 1, kind);
    }
}

proof fn lemma_window_end_range(c: Seq<char>, start: int, chunk_chars: int)
    requires
        0 <= start < c.len(),
        chunk_chars >= 0,
    ensures
        start <= window_end(c, start, chunk_chars) <= c.len(),
        chunk_chars > 0 ==> start < window_end(c, start, chunk_chars),
        window_end(c, start, chunk_chars) <= start + chunk_chars,
{
    let end = if start + chunk_chars < c.len() {
        start + chunk_chars
    } else {
        c.len() as int
    };
    let ss = start + (end - start) * 6 / 10;
    if end - start >= 100 {
        assert(ss >= start + 60) by (nonlinear_arith)
            requires
                end - start >= 100,
                ss == start + (end - start) * 6 / 10,
        ;
        assert(ss <= end) by (nonlinear_arith)
            requires
                end - start >= 100,
                ss == start + (end - start) * 6 / 10,
        ;
        lemma_last_at_range(c, ss, end - 1, 0);
        lemma_last_at_range(c, ss, end - 1, 1);
        lemma_last_at_range(c, ss, end, 2);
    }
}

/// `floor(w * 6 / 10)`, computed without overflow.
fn six_tenths(w: usize) -> (r: usize)
    ensures
        r == w * 6 / 10,
{
    let q = w / 10;
    let m = w % 10;
    proof {
        assert(w == q * 10 + m && 0 <= m < 10) by (nonlinear_arith)
            requires
                q == w / 10,
                m == w % 10,
        ;
        assert(w * 6 / 10 == q * 6 + m * 6 / 10) by (nonlinear_arith)
            requires
                w == q * 10 + m,
                0 <= m < 10,
        ;
        assert(q * 6 <= w) by (nonlinear_arith)
            requires
                w == q * 10 + m,
                0 <= m < 10,
                q >= 0,
        ;
    }
    q * 6 + m * 6 / 10
}

/// The offset at which the window `start..end` is cut; see `break_point`.
fn find_break_point(chars: &Vec<char>, start: usize, end: usize) -> (r: Option<usize>)
    requires
        start <= end <= chars@.len(),
    ensures
        match r {
            Some(b) => break_point(chars@, start as int, end as int) == Some(b as int),
            None => break_point(chars@, start as int, end as int) is None,
        },
{
    if end - start < 100 {
        return None;
    }
    let ss = start + six_tenths(end - start);
    proof {
        let w = end - start;
        assert(w * 6 / 10 <= w) by (nonlinear_arith)
            requires
                w >= 0,
        ;
    }
    match last_at_exec(chars, ss, end - 1, 0) {
        Some(i) => Some(i),
        None => match last_at_exec(chars, ss, end - 1, 1) {
            Some(i) => Some(i + 1),
            None => last_at_exec(chars, ss, end, 2),
        },
    }
}

/// Cut text into chunks of at most `chunk_chars` characters, preferring paragraph,
/// sentence and word boundaries, with `chunk_overlap` characters shared between
/// neighbouring chunks. Blank pieces are dropped.
#[verifier::rlimit(60)]
pub fn chunk_text(text: &str, chunk_chars: usize, chunk_overlap: usize) -> (chunks: Vec<PaperChunk>)
    ensures
        chunks@.len() == chunks_of(text@, chunk_chars as int, chunk_overlap as int).len(),
        forall|k: int|
            0 <= k < chunks@.len() ==> chunk_is(
                #[trigger] chunks@[k],
                k,
                chunks_of(text@, chunk_chars as int, chunk_overlap as int)[k],
                text@,
            ),
{
    let chars = chars_of(text);
    let ghost c = chars@;
    let ghost cc = chunk_chars as int;
    let ghost ov = chunk_overlap as int;
    let mut chunks: Vec<PaperChunk> = Vec::new();
    let t = trimmed(&chars);
    if t.len() == 0 {
        return chunks;
    }
    let n = chars.len();
    let mut start: usize = 0;
    let ghost mut acc: Seq<(int, int)> = seq![];
    while start < n
        invariant
            n == c.len(),
            c == chars@,
            c == text@,
            cc == chunk_chars,
            ov == chunk_overlap,
            acc + chunk_spans(c, start as int, cc, ov) == chunk_spans(c, 0, cc, ov),
            chunks@.len() == acc.len(),
            forall|k: int| 0 <= k < chunks@.len() ==> chunk_is(#[trigger] chunks@[k], k, acc[k], c),
        decreases n - start,
    {
        let end = if chunk_chars < n - start {
            start + chunk_chars
        } else {
            n
        };
        let break_point = find_break_point(&chars, start, end);
        let actual_end = match break_point {
            Some(b) => b,
            None => end,
        };
        proof {
            lemma_window_end_range(c, start as int, cc);
        }
        assert(actual_end == window_end(c, start as int, cc));
        let mut piece: Vec<char> = Vec::new();
        push_range(&mut piece, &chars, start, actual_end);
        assert(piece@ =~= c.subrange(start as int, actual_end as int));
        let e = trim_end_index(&piece, 0, piece.len());
        assert(piece@.subrange(0, piece@.len() as int) =~= piece@);
        proof {
            lemma_blank_iff_trim_end_empty(piece@);
        }
        let ghost next = next_start(c, start as int, cc, ov);
        if e != 0 {
            let k = chunks.len();
            chunks.push(
                PaperChunk {
                    index: k,
                    start_char: start,
                    end_char: actual_end,
                    text: string_from_chars(&piece),
                    cluster_id: None,
                    parent_id: None,
                },
            );
            proof {
                let old_acc = acc;
                acc = acc.push((start as int, actual_end as int));
                assert(acc + chunk_spans(c, next, cc, ov) =~= old_acc + chunk_spans(
                    c,
                    start as int,
                    cc,
                    ov,
                ));
                assert forall|j: int| 0 <= j < chunks@.len() implies chunk_is(
                    #[trigger] chunks@[j],
                    j,
                    acc[j],
                    c,
                ) by {
                    if j < k {
                        assert(acc[j] == old_acc[j]);
                    }
                }
            }
        }
        if actual_end == start {
            start = start + 1;
        } else {
            let step = actual_end - start;
            let back = if chunk_overlap < step - 1 {
                chunk_overlap
            } else {
                step - 1
            };
            start = actual_end - back;
        }
        assert(start == next);
    }
    assert(chunk_spans(c, start as int, cc, ov) =~= Seq::<(int, int)>::empty());
    assert(acc =~= chunk_spans(c, 0, cc, ov));
    proof {
        lemma_blank_iff_trim_end_empty(c);
    }
    chunks
}


proof fn lemma_blank_iff_all_ws(x: Seq<char>)
    ensures
        is_blank(x) <==> all_ws(x),
{
    lemma_blank_iff_trim_end_empty(x);
    lemma_trim_end_shape(x);
    let t = trim_end(x);
    if t.len() == 0 {
        assert(x.skip(0) =~= x);
    } else {
        assert(t[t.len() - 1] == x[t.len() - 1]);
    }
}

/// Every chunk span lies inside the text, starts no earlier than `start`, holds some
/// non-whitespace character, is at most `chunk_chars` long, and the spans start
/// strictly left to right.
pub proof fn lemma_chunk_spans_shape(c: Seq<char>, start: int, chunk_chars: int, overlap: int)
    requires
        0 <= start,
        chunk_chars >= 0,
        overlap >= 0,
    ensures
        forall|k: int|
            0 <= k < chunk_spans(c, start, chunk_chars, overlap).len() ==> {
                let sp = #[trigger] chunk_spans(c, start, chunk_chars, overlap)[k];
                &&& start <= sp.0 < sp.1 <= c.len()
                &&& sp.1 - sp.0 <= chunk_chars
                &&& !is_blank(c.subrange(sp.0, sp.1))
            },
        forall|k: int, l: int|
            0 <= k < l < chunk_spans(c, start, chunk_chars, overlap).len() ==> (#[trigger] chunk_spans(
                c,
                start,
                chunk_chars,
                overlap,
            )[k]).0 < (#[trigger] chunk_spans(c, start, chunk_chars, overlap)[l]).0,
    decreases (if start < c.len() {
        c.len() - start
    } else {
        0
    }),
{
    if start < c.len() {
        let ae = window_end(c, start, chunk_chars);
        let nx = next_start(c, start, chunk_chars, overlap);
        lemma_window_end_range(c, start, chunk_chars);
        lemma_chunk_spans_shape(c, nx, chunk_chars, overlap);
        let rest = chunk_spans(c, nx, chunk_chars, overlap);
        let all = chunk_spans(c, start, chunk_chars, overlap);
        if !is_blank(c.subrange(start, ae)) {
            assert(all == seq![(start, ae)] + rest);
            if ae == start {
                assert(c.subrange(start, ae) =~= Seq::<char>::empty());
                assert(trim(Seq::<char>::empty()) =~= Seq::<char>::empty());
            }
            assert forall|k: int| 0 <= k < all.len() implies {
                let sp = #[trigger] all[k];
                &&& start <= sp.0 < sp.1 <= c.len()
                &&& sp.1 - sp.0 <= chunk_chars
                &&& !is_blank(c.subrange(sp.0, sp.1))
            } by {
                if k > 0 {
                    assert(all[k] == rest[k - 1]);
                }
            }
            assert forall|k: int, l: int| 0 <= k < l < all.len() implies (#[trigger] all[k]).0 < (
            #[trigger] all[l]).0 by {
                assert(all[l] == rest[l - 1]);
                if k > 0 {
                    assert(all[k] == rest[k - 1]);
                }
            }
        }
    }
}

/// No content is lost: with a positive chunk size, every non-whitespace character
/// from `start` on lies inside some chunk span.
pub proof fn lemma_chunk_spans_cover(
    c: Seq<char>,
    start: int,
    chunk_chars: int,
    overlap: int,
    p: int,
)
    requires
        0 <= start <= p < c.len(),
        chunk_chars > 0,
        overlap >= 0,
        !is_ws(c[p]),
    ensures
        exists|k: int|
            0 <= k < chunk_spans(c, start, chunk_chars, overlap).len() && (#[trigger] chunk_spans(
                c,
                start,
                chunk_chars,
                overlap,
            )[k]).0 <= p < chunk_spans(c, start, chunk_chars, overlap)[k].1,
    decreases c.len() - start,
{
    let ae = window_end(c, start, chunk_chars);
    let nx = next_start(c, start, chunk_chars, overlap);
    lemma_window_end_range(c, start, chunk_chars);
    let rest = chunk_spans(c, nx, chunk_chars, overlap);
    let all = chunk_spans(c, start, chunk_chars, overlap);
    if p < nx {
        let w = c.subrange(start, ae);
        assert(w[p - start] == c[p]);
        lemma_blank_iff_all_ws(w);
        assert(!is_blank(w));
        assert(all == seq![(start, ae)] + rest);
        assert(all[0] == (start, ae));
    } else {
        lemma_chunk_spans_cover(c, nx, chunk_chars, overlap, p);
        let k = choose|k: int|
            0 <= k < rest.len() && (#[trigger] rest[k]).0 <= p < rest[k].1;
        if !is_blank(c.subrange(start, ae)) {
            assert(all == seq![(start, ae)] + rest);
            assert(all[k + 1] == rest[k]);
        } else {
            assert(all == rest);
        }
    }
}

/// Chunking loses no content: every non-whitespace character of the text lies in
/// one of the spans `chunk_text` returns, whenever `chunk_chars` is positive.
pub proof fn lemma_chunks_cover_text(c: Seq<char>, chunk_chars: int, overlap: int, p: int)
    requires
        0 <= p < c.len(),
        chunk_chars > 0,
        overlap >= 0,
        !is_ws(c[p]),
    ensures
        exists|k: int|
            0 <= k < chunks_of(c, chunk_chars, overlap).len() && (#[trigger] chunks_of(
                c,
                chunk_chars,
                overlap,
            )[k]).0 <= p < chunks_of(c, chunk_chars, overlap)[k].1,
{
    lemma_blank_iff_all_ws(c);
    assert(!all_ws(c)) by {
        assert(!is_ws(c[p]));
    }
    assert(chunks_of(c, chunk_chars, overlap) == chunk_spans(c, 0, chunk_chars, overlap));
    lemma_chunk_spans_cover(c, 0, chunk_chars, overlap, p);
}


/// Characters at which `segments_from_text` splits.
pub open spec fn is_segment_sep(c: char) -> bool {
    c == '.' || c == '?' || c == '!' || c == '\n'
}

/// The pieces finished so far and the piece in progress, splitting at separators.
pub open spec fn pieces_acc(s: Seq<char>) -> (Seq<Seq<char>>, Seq<char>)
    decreases s.len(),
{
    if s.len() == 0 {
        (seq![], seq![])
    } else {
        let (done, cur) = pieces_acc(s.drop_last());
        if is_segment_sep(s.last()) {
            (done.push(cur), seq![])
        } else {
            (done, cur.push(s.last()))
        }
    }
}

/// `str::split` at the separators: every piece, empty ones included.
pub open spec fn pieces(s: Seq<char>) -> Seq<Seq<char>> {
    pieces_acc(s).0.push(pieces_acc(s).1)
}

/// The trimmed pieces of at least 20 characters, in order.
pub open spec fn long_segments(ps: Seq<Seq<char>>) -> Seq<Seq<char>>
    decreases ps.len(),
{
    if ps.len() == 0 {
        seq![]
    } else if trim(ps[0]).len() >= 20 {
        seq![trim(ps[0])] + long_segments(ps.drop_first())
    } else {
        long_segments(ps.drop_first())
    }
}

/// What `segments_from_text` returns for `t`.
pub open spec fn segments_of(t: Seq<char>) -> Seq<Seq<char>> {
    long_segments(pieces(t))
}

proof fn lemma_pieces_acc_no_sep(s: Seq<char>)
    ensures
        forall|k: int, i: int|
            0 <= k < pieces_acc(s).0.len() && 0 <= i < pieces_acc(s).0[k].len() ==> !is_segment_sep(
                #[trigger] pieces_acc(s).0[k][i],
            ),
        forall|i: int| 0 <= i < pieces_acc(s).1.len() ==> !is_segment_sep(#[trigger] pieces_acc(s).1[i]),
    decreases s.len(),
{
    if s.len() > 0 {
        lemma_pieces_acc_no_sep(s.drop_last());
        let (done, cur) = pieces_acc(s.drop_last());
        if is_segment_sep(s.last()) {
            assert forall|k: int, i: int|
                0 <= k < done.push(cur).len() && 0 <= i < done.push(cur)[k].len() implies !is_segment_sep(
                    #[trigger] done.push(cur)[k][i],
                ) by {
                if k < done.len() {
                    assert(done.push(cur)[k] == done[k]);
                }
            }
        } else {
            let c = cur.push(s.last());
            assert forall|i: int| 0 <= i < c.len() implies !is_segment_sep(#[trigger] c[i]) by {
                if i < cur.len() {
                    assert(c[i] == cur[i]);
                }
            }
        }
    }
}

proof fn lemma_pieces_no_sep(s: Seq<char>)
    ensures
        forall|k: int, i: int|
            0 <= k < pieces(s).len() && 0 <= i < pieces(s)[k].len() ==> !is_segment_sep(
                #[trigger] pieces(s)[k][i],
            ),
{
    lemma_pieces_acc_no_sep(s);
    let (done, cur) = pieces_acc(s);
    assert forall|k: int, i: int|
        0 <= k < pieces(s).len() && 0 <= i < pieces(s)[k].len() implies !is_segment_sep(
            #[trigger] pieces(s)[k][i],
        ) by {
        if k < done.len() {
            assert(pieces(s)[k] == done[k]);
        } else {
            assert(pieces(s)[k] == cur);
        }
    }
}

/// A segment is at least 20 characters long, has no whitespace at either end and
/// holds no separator.
pub open spec fn good_segment(g: Seq<char>) -> bool {
    &&& g.len() >= 20
    &&& !is_ws(g[0])
    &&& !is_ws(g.last())
    &&& forall|i: int| 0 <= i < g.len() ==> !is_segment_sep(#[trigger] g[i])
}

proof fn lemma_long_segments_good(ps: Seq<Seq<char>>)
    requires
        forall|k: int, i: int| 0 <= k < ps.len() && 0 <= i < ps[k].len() ==> !is_segment_sep(#[trigger] ps[k][i]),
    ensures
        forall|k: int| 0 <= k < long_segments(ps).len() ==> good_segment(#[trigger] long_segments(ps)[k]),
    decreases ps.len(),
{
    if ps.len() > 0 {
        let rest = ps.drop_first();
        assert forall|k: int, i: int| 0 <= k < rest.len() && 0 <= i < rest[k].len() implies !is_segment_sep(
            #[trigger] rest[k][i],
        ) by {
            assert(rest[k] == ps[k + 1]);
        }
        lemma_long_segments_good(rest);
        let g = trim(ps[0]);
        if g.len() >= 20 {
            let (b, e) = lemma_trim_range(ps[0]);
            assert(g.len() > 0);
            assert forall|i: int| 0 <= i < g.len() implies !is_segment_sep(#[trigger] g[i]) by {
                assert(g[i] == ps[0][i + b]);
            }
            let r = long_segments(ps);
            assert(r == seq![g] + long_segments(rest));
            assert forall|k: int| 0 <= k < r.len() implies good_segment(#[trigger] r[k]) by {
                if k > 0 {
                    assert(r[k] == long_segments(rest)[k - 1]);
                }
            }
        } else {
            assert(long_segments(ps) == long_segments(rest));
        }
    }
}

/// Every segment `segments_from_text` keeps has at least 20 characters, is trimmed, and
/// holds no `.`, `?`, `!` or newline.
pub proof fn lemma_segments_good(t: Seq<char>)
    ensures
        forall|k: int| 0 <= k < segments_of(t).len() ==> good_segment(#[trigger] segments_of(t)[k]),
{
    lemma_pieces_no_sep(t);
    lemma_long_segments_good(pieces(t));
}

/// Split text into sentence-like segments at `.`, `?`, `!` and newlines, keep the
/// trimmed pieces of at least 20 characters.
pub fn segments_from_text(text: &str) -> (out: Vec<String>)
    ensures
        out@.len() == segments_of(text@).len(),
        forall|k: int| 0 <= k < out@.len() ==> (#[trigger] out@[k])@ == segments_of(text@)[k],
        forall|k: int| 0 <= k < out@.len() ==> good_segment((#[trigger] out@[k])@),
{
    proof {
        lemma_segments_good(text@);
    }
    let v = chars_of(text);
    let n = v.len();
    let ghost ps = pieces(v@);
    // Piece boundaries first.
    let mut ranges: Vec<(usize, usize)> = Vec::new();
    let mut start: usize = 0;
    let mut i: usize = 0;
    while i < n
        invariant
            n == v@.len(),
            start <= i <= n,
            crate::text::ranges_ok(v@, ranges@),
            pieces_acc(v@.take(i as int)) == (slices(v@, ranges@), v@.subrange(
                start as int,
                i as int,
            )),
        decreases n - i,
    {
        assert(v@.take(i + 1 as int).drop_last() =~= v@.take(i as int));
        assert(v@.take(i + 1 as int).last() == v@[i as int]);
        let c = v[i];
        if c == '.' || c == '?' || c == '!' || c == '\n' {
            let ghost old_r = ranges@;
            ranges.push((start, i));
            assert(slices(v@, ranges@) =~= slices(v@, old_r).push(
                v@.subrange(start as int, i as int),
            ));
            start = i + 1;
            assert(v@.subrange(start as int, i + 1 as int) =~= Seq::<char>::empty());
        } else {
            assert(v@.subrange(start as int, i + 1 as int) =~= v@.subrange(
                start as int,
                i as int,
            ).push(v@[i as int]));
        }
        i = i + 1;
    }
    assert(v@.take(n as int) =~= v@);
    let ghost old_r = ranges@;
    ranges.push((start, n));
    assert(slices(v@, ranges@) =~= slices(v@, old_r).push(v@.subrange(start as int, n as int)));
    assert(slices(v@, ranges@) == ps);
    // Keep the long trimmed pieces.
    let mut out: Vec<String> = Vec::new();
    let ghost mut acc: Seq<Seq<char>> = seq![];
    let mut k: usize = 0;
    assert(ps.skip(0) =~= ps);
    while k < ranges.len()
        invariant
            crate::text::ranges_ok(v@, ranges@),
            slices(v@, ranges@) == ps,
            k <= ranges@.len(),
            acc + long_segments(ps.skip(k as int)) == long_segments(ps),
            out@.len() == acc.len(),
            forall|j: int| 0 <= j < out@.len() ==> (#[trigger] out@[j])@ == acc[j],
        decreases ranges.len() - k,
    {
        let (lo, hi) = ranges[k];
        assert(ranges@[k as int].0 <= ranges@[k as int].1 <= v@.len());
        let ghost p = v@.subrange(lo as int, hi as int);
        assert(ps[k as int] == p);
        assert(ps.skip(k as int).drop_first() =~= ps.skip(k + 1));
        assert(ps.skip(k as int)[0] == p);
        let e = trim_end_index(&v, lo, hi);
        let b = trim_start_index(&v, lo, e);
        assert(v@.subrange(b as int, e as int) == trim(p));
        if e - b >= 20 {
            let mut piece: Vec<char> = Vec::new();
            push_range(&mut piece, &v, b, e);
            assert(piece@ =~= trim(p));
            out.push(string_from_chars(&piece));
            proof {
                assert(acc.push(trim(p)) + long_segments(ps.skip(k + 1)) =~= acc + (seq![trim(p)]
                    + long_segments(ps.skip(k + 1))));
                acc = acc.push(trim(p));
            }
        }
        k = k + 1;
    }
    assert(ps.skip(ranges@.len() as int) =~= Seq::<Seq<char>>::empty());
    assert(acc =~= acc + long_segments(ps.skip(ranges@.len() as int)));
    out
}


/// The text of one cluster of segments and where each segment sits in it.
#[derive(Debug, Clone, PartialEq, Eq)]
pub struct ClusterChunk {
    pub index: usize,
    pub start_char: usize,
    pub end_char: usize,
    pub text: String,
    pub segments: Vec<PaperChunk>,
    pub cluster_id: Option<String>,
    pub parent_id: Option<String>,
}

/// The member texts joined by blank lines.
pub open spec fn joined_members(texts: Seq<Seq<char>>, members: Seq<usize>) -> Seq<char>
    decreases members.len(),
{
    if members.len() == 0 {
        seq![]
    } else if members.len() == 1 {
        texts[members[0] as int]
    } else {
        joined_members(texts, members.drop_last()) + seq!['\n', '\n'] + texts[members.last() as int]
    }
}

/// Characters needed to join the member texts.
pub open spec fn joined_len(texts: Seq<Seq<char>>, members: Seq<usize>) -> nat
    decreases members.len(),
{
    if members.len() == 0 {
        0
    } else {
        joined_len(texts, members.drop_last()) + 2 + texts[members.last() as int].len()
    }
}

pub open spec fn cluster_label(prefix: Seq<char>, idx: nat) -> Seq<char> {
    prefix + decimal(idx)
}

proof fn lemma_joined_len(texts: Seq<Seq<char>>, members: Seq<usize>)
    ensures
        members.len() > 0 ==> joined_members(texts, members).len() + 2 == joined_len(texts, members),
    decreases members.len(),
{
    if members.len() > 1 {
        lemma_joined_len(texts, members.drop_last());
    } else if members.len() == 1 {
        assert(joined_len(texts, members.drop_last()) == 0);
    }
}

/// The texts of a list of strings.
pub open spec fn text_views(texts: Seq<String>) -> Seq<Seq<char>> {
    texts.map_values(|t: String| t@)
}

/// `c` is cluster `idx` made of the segments `members` of `texts`: their texts joined
/// by blank lines, each segment with its span in the joined text.
pub open spec fn cluster_chunk_is(c: ClusterChunk, idx: nat, texts: Seq<Seq<char>>, members: Seq<usize>) -> bool {
    &&& c.index == idx
    &&& c.start_char == 0
    &&& c.text@ == joined_members(texts, members)
    &&& c.end_char == c.text@.len()
    &&& c.cluster_id matches Some(id) && id@ == cluster_label("hierarchical_"@, idx)
    &&& c.segments@.len() == members.len()
    &&& forall|k: int|
        0 <= k < members.len() ==> {
            let seg = #[trigger] c.segments@[k];
            &&& seg.index == k
            &&& seg.text@ == texts[members[k] as int]
            &&& seg.start_char == (if k == 0 {
                0
            } else {
                joined_members(texts, members.take(k)).len() + 2
            })
            &&& seg.end_char == seg.start_char + seg.text@.len()
            &&& seg.cluster_id matches Some(id) && id@ == cluster_label("cluster_"@, idx)
            &&& seg.parent_id is None
        }
    &&& c.parent_id is None
}

/// Join the texts of cluster `cluster_idx`'s member segments with blank lines,
/// recording each segment's character span in the joined text.
pub fn assemble_cluster(cluster_idx: usize, texts: &Vec<String>, members: &Vec<usize>) -> (c: ClusterChunk)
    requires
        forall|k: int| 0 <= k < members@.len() ==> #[trigger] members@[k] < texts@.len(),
        joined_len(text_views(texts@), members@) <= usize::MAX,
    ensures
        cluster_chunk_is(c, cluster_idx as nat, text_views(texts@), members@),
{
    let ghost tv = texts@.map_values(|t: String| t@);
    let mut seg_label = String::from_str("cluster_");
    let digits = decimal_string(cluster_idx);
    seg_label.append(digits.as_str());
    let mut text = String::new();
    let mut segments: Vec<PaperChunk> = Vec::new();
    let mut len: usize = 0;
    let mut i: usize = 0;
    while i < members.len()
        invariant
            i <= members@.len(),
            tv == texts@.map_values(|t: String| t@),
            forall|k: int| 0 <= k < members@.len() ==> #[trigger] members@[k] < texts@.len(),
            joined_len(tv, members@) <= usize::MAX,
            seg_label@ == cluster_label("cluster_"@, cluster_idx as nat),
            text@ == joined_members(tv, members@.take(i as int)),
            len == text@.len(),
            i > 0 ==> len + 2 == joined_len(tv, members@.take(i as int)),
            i == 0 ==> len == 0,
            segments@.len() == i,
            forall|k: int|
                0 <= k < i ==> {
                    let seg = #[trigger] segments@[k];
                    &&& seg.index == k
                    &&& seg.text@ == texts@[members@[k] as int]@
                    &&& seg.start_char == (if k == 0 {
                        0
                    } else {
                        joined_members(tv, members@.take(k)).len() + 2
                    })
                    &&& seg.end_char == seg.start_char + seg.text@.len()
                    &&& seg.cluster_id matches Some(id) && id@ == cluster_label(
                        "cluster_"@,
                        cluster_idx as nat,
                    )
                    &&& seg.parent_id is None
                },
        decreases members.len() - i,
    {
        let m = members[i];
        assert(members@.take(i + 1 as int).drop_last() =~= members@.take(i as int));
        assert(members@.take(i + 1 as int).last() == m);
        proof {
            lemma_joined_len_prefix(tv, members@, i + 1);
            lemma_joined_len(tv, members@.take(i + 1 as int));
        }
        let t = &texts[m];
        assert(tv[m as int] == t@);
        let tl = t.as_str().unicode_len();
        proof {
            reveal_strlit("\n\n");
        }
        if i > 0 {
            text.append("\n\n");
            len = len + 2;
        }
        let start = len;
        text.append(t.as_str());
        len = len + tl;
        assert(text@ =~= joined_members(tv, members@.take(i + 1 as int)));
        segments.push(
            PaperChunk {
                index: i,
                start_char: start,
                end_char: len,
                text: t.clone(),
                cluster_id: Some(seg_label.clone()),
                parent_id: None,
            },
        );
        i = i + 1;
    }
    assert(members@.take(members@.len() as int) =~= members@);
    let mut label = String::from_str("hierarchical_");
    label.append(digits.as_str());
    ClusterChunk {
        index: cluster_idx,
        start_char: 0,
        end_char: len,
        text,
        segments,
        cluster_id: Some(label),
        parent_id: None,
    }
}

/// Every cluster's members are segments of `texts`, and its joined text fits in memory.
pub open spec fn clusters_fit(texts: Seq<String>, clusters: Seq<Vec<usize>>) -> bool {
    forall|j: int|
        0 <= j < clusters.len() ==> {
            &&& forall|k: int| 0 <= k < clusters[j]@.len() ==> #[trigger] clusters[j]@[k] < texts.len()
            &&& joined_len(text_views(texts), (#[trigger] clusters[j])@) <= usize::MAX
        }
}

/// One chunk per cluster, in cluster order, numbered from 0.
pub fn cluster_chunks(texts: &Vec<String>, clusters: &Vec<Vec<usize>>) -> (out: Vec<ClusterChunk>)
    requires
        clusters_fit(texts@, clusters@),
    ensures
        out@.len() == clusters@.len(),
        forall|j: int|
            0 <= j < clusters@.len() ==> cluster_chunk_is(
                #[trigger] out@[j],
                j as nat,
                text_views(texts@),
                clusters@[j]@,
            ),
{
    let mut out: Vec<ClusterChunk> = Vec::new();
    let mut j: usize = 0;
    while j < clusters.len()
        invariant
            j <= clusters@.len(),
            clusters_fit(texts@, clusters@),
            out@.len() == j,
            forall|i: int|
                0 <= i < j ==> cluster_chunk_is(
                    #[trigger] out@[i],
                    i as nat,
                    text_views(texts@),
                    clusters@[i]@,
                ),
        decreases clusters.len() - j,
    {
        let members = &clusters[j];
        assert(joined_len(text_views(texts@), clusters@[j as int]@) <= usize::MAX);
        assert forall|k: int| 0 <= k < members@.len() implies #[trigger] members@[k] < texts@.len() by {
            assert(clusters@[j as int]@[k] < texts@.len());
        }
        let c = assemble_cluster(j, texts, members);
        out.push(c);
        j = j + 1;
    }
    out
}

proof fn lemma_joined_len_prefix(texts: Seq<Seq<char>>, members: Seq<usize>, i: int)
    requires
        0 <= i <= members.len(),
    ensures
        joined_len(texts, members.take(i)) <= joined_len(texts, members),
    decreases members.len() - i,
{
    if i < members.len() {
        lemma_joined_len_prefix(texts, members, i + 1);
        assert(members.take(i + 1).drop_last() =~= members.take(i));
    } else {
        assert(members.take(i) =~= members);
    }
}


/// How paper text is cleaned and cut.
#[derive(Debug, Clone, Copy, PartialEq, Eq)]
pub struct PreparationOptions {
    /// Drop everything from the first references / acknowledgments heading on.
    pub prune_references: bool,
    /// Target chunk size in characters (at least 1000 is used).
    pub chunk_chars: usize,
    /// Characters shared by neighbouring chunks.
    pub chunk_overlap: usize,
}

impl Default for PreparationOptions {
    fn default() -> (o: Self)
        ensures
            o.prune_references,
            o.chunk_chars == 4000,
            o.chunk_overlap == 200,
    {
        PreparationOptions { prune_references: true, chunk_chars: 4000, chunk_overlap: 200 }
    }
}

/// A paper with its cleaned text and chunks.
#[derive(Debug, Clone, PartialEq, Eq)]
pub struct PreparedPaper {
    pub paper: Paper,
    pub source: String,
    pub raw_markdown: String,
    pub pruned_markdown: String,
    pub chunks: Vec<PaperChunk>,
}

/// The chunk size `prepare_paper` uses.
pub open spec fn effective_chunk_chars(o: PreparationOptions) -> int {
    if o.chunk_chars < 1000 {
        1000
    } else {
        o.chunk_chars as int
    }
}

/// The overlap `prepare_paper` uses: below the requested chunk size.
pub open spec fn effective_overlap(o: PreparationOptions) -> int {
    let cap = if o.chunk_chars == 0 {
        0
    } else {
        o.chunk_chars - 1
    };
    if o.chunk_overlap < cap {
        o.chunk_overlap as int
    } else {
        cap as int
    }
}

/// Normalise and prune a paper's markdown and cut it into chunks.
pub fn prepare_paper(paper: Paper, source: String, markdown: &str, options: PreparationOptions) -> (p: PreparedPaper)
    ensures
        p.paper == paper,
        p.source@ == source@,
        p.raw_markdown@ == normalized(markdown@),
        p.pruned_markdown@ == pruned(p.raw_markdown@, options.prune_references),
        p.chunks@.len() == chunks_of(
            p.pruned_markdown@,
            effective_chunk_chars(options),
            effective_overlap(options),
        ).len(),
        forall|k: int|
            0 <= k < p.chunks@.len() ==> chunk_is(
                #[trigger] p.chunks@[k],
                k,
                chunks_of(p.pruned_markdown@, effective_chunk_chars(options), effective_overlap(options))[k],
                p.pruned_markdown@,
            ),
{
    let raw_markdown = normalize_markdown(markdown);
    let pruned_markdown = prune_markdown(raw_markdown.as_str(), options.prune_references);
    let size = if options.chunk_chars < 1000 {
        1000
    } else {
        options.chunk_chars
    };
    let cap = if options.chunk_chars == 0 {
        0
    } else {
        options.chunk_chars - 1
    };
    let overlap = if options.chunk_overlap < cap {
        options.chunk_overlap
    } else {
        cap
    };
    let chunks = chunk_text(pruned_markdown.as_str(), size, overlap);
    PreparedPaper { paper, source, raw_markdown, pruned_markdown, chunks }
}


/// `prepare_paper` cuts windows of the requested size, raised to 1000 when smaller,
/// and keeps the requested overlap, lowered to one less than the requested size.
pub proof fn lemma_preparation_sizes(o: PreparationOptions)
    ensures
        o.chunk_chars >= 1000 ==> effective_chunk_chars(o) == o.chunk_chars,
        o.chunk_chars < 1000 ==> effective_chunk_chars(o) == 1000,
        o.chunk_chars > 0 && o.chunk_overlap < o.chunk_chars ==> effective_overlap(o) == o.chunk_overlap,
        o.chunk_chars > 0 && o.chunk_overlap >= o.chunk_chars ==> effective_overlap(o) == o.chunk_chars - 1,
        o.chunk_chars == 0 ==> effective_overlap(o) == 0,
{
}

proof fn lemma_last_at_found(c: Seq<char>, lo: int, hi: int, kind: int)
    ensures
        match last_at(c, lo, hi, kind) {
            Some(b) => lo <= b < hi && ((kind == 0 && para_at(c, b)) || (kind == 1 && sentence_at(c, b))
                || (kind == 2 && space_at(c, b))) && forall|j: int|
                b < j < hi ==> !((kind == 0 && para_at(c, j)) || (kind == 1 && sentence_at(c, j)) || (
                kind == 2 && space_at(c, j))),
            None => forall|j: int|
                lo <= j < hi ==> !((kind == 0 && para_at(c, j)) || (kind == 1 && sentence_at(c, j)) || (
                kind == 2 && space_at(c, j))),
        },
    decreases hi - lo,
{
    if hi > lo {
        lemma_last_at_found(c, lo, hi - 1, kind);
    }
}

/// Two newlines start at `i`.
pub open spec fn two_newlines(c: Seq<char>, i: int) -> bool {
    c[i] == '\n' && c[i + 1] == '\n'
}

/// A full stop and a space start at `i`.
pub open spec fn dot_space(c: Seq<char>, i: int) -> bool {
    c[i] == '.' && c[i + 1] == ' '
}

/// A space is at `i`.
pub open spec fn space_char(c: Seq<char>, i: int) -> bool {
    c[i] == ' '
}

/// A window of at least 100 characters is cut at the last paragraph break (two
/// newlines) in its final 40%; failing that, just after the last sentence end (`.`
/// then a space) there; failing that, at the last space there; and it is taken whole
/// when it has none of these or is shorter.
pub proof fn lemma_break_point_choice(c: Seq<char>, start: int, end: int)
    requires
        0 <= start <= end <= c.len(),
    ensures
        end - start < 100 ==> break_point(c, start, end) is None,
        end - start >= 100 ==> {
            let ss = start + (end - start) * 6 / 10;
            &&& (exists|i: int| ss <= i < end - 1 && #[trigger] two_newlines(c, i)) ==> exists|b: int|
                break_point(c, start, end) == Some(b) && ss <= b < end - 1 && two_newlines(c, b)
                    && forall|j: int| b < j < end - 1 ==> !#[trigger] two_newlines(c, j)
            &&& (!exists|i: int| ss <= i < end - 1 && #[trigger] two_newlines(c, i)) && (exists|i: int|
                ss <= i < end - 1 && #[trigger] dot_space(c, i)) ==> exists|b: int|
                break_point(c, start, end) == Some(b + 1) && ss <= b < end - 1 && dot_space(c, b)
                    && forall|j: int| b < j < end - 1 ==> !#[trigger] dot_space(c, j)
            &&& (!exists|i: int| ss <= i < end - 1 && #[trigger] two_newlines(c, i)) && (!exists|i: int|
                ss <= i < end - 1 && #[trigger] dot_space(c, i)) && (exists|i: int|
                ss <= i < end && #[trigger] space_char(c, i)) ==> exists|b: int|
                break_point(c, start, end) == Some(b) && ss <= b < end && space_char(c, b)
                    && forall|j: int| b < j < end ==> !#[trigger] space_char(c, j)
            &&& (!exists|i: int| ss <= i < end - 1 && #[trigger] two_newlines(c, i)) && (!exists|i: int|
                ss <= i < end - 1 && #[trigger] dot_space(c, i)) && (!exists|i: int|
                ss <= i < end && #[trigger] space_char(c, i)) ==> break_point(c, start, end) is None
        },
{
    if end - start >= 100 {
        let ss = start + (end - start) * 6 / 10;
        assert(start <= ss <= end) by (nonlinear_arith)
            requires
                ss == start + (end - start) * 6 / 10,
                end - start >= 100,
        ;
        lemma_last_at_found(c, ss, end - 1, 0);
        lemma_last_at_found(c, ss, end - 1, 1);
        lemma_last_at_found(c, ss, end, 2);
        assert forall|i: int| ss <= i < end - 1 implies (#[trigger] two_newlines(c, i) == para_at(c, i)) && (
        dot_space(c, i) == sentence_at(c, i)) by {}
        assert forall|i: int| ss <= i < end implies #[trigger] space_char(c, i) == space_at(c, i) by {}
        match last_at(c, ss, end - 1, 0) {
            Some(b) => {
                assert(break_point(c, start, end) == Some(b));
                assert(two_newlines(c, b));
                assert forall|j: int| b < j < end - 1 implies !#[trigger] two_newlines(c, j) by {
                    assert(two_newlines(c, j) == para_at(c, j));
                }
            },
            None => {
                assert(!exists|i: int| ss <= i < end - 1 && #[trigger] two_newlines(c, i)) by {
                    if exists|i: int| ss <= i < end - 1 && #[trigger] two_newlines(c, i) {
                        let i = choose|i: int| ss <= i < end - 1 && #[trigger] two_newlines(c, i);
                        assert(para_at(c, i));
                    }
                }
                match last_at(c, ss, end - 1, 1) {
                    Some(b) => {
                        assert(break_point(c, start, end) == Some(b + 1));
                        assert(dot_space(c, b));
                        assert forall|j: int| b < j < end - 1 implies !#[trigger] dot_space(c, j) by {
                            assert(dot_space(c, j) == sentence_at(c, j));
                        }
                    },
                    None => {
                        assert(!exists|i: int| ss <= i < end - 1 && #[trigger] dot_space(c, i)) by {
                            if exists|i: int| ss <= i < end - 1 && #[trigger] dot_space(c, i) {
                                let i = choose|i: int| ss <= i < end - 1 && #[trigger] dot_space(c, i);
                                assert(sentence_at(c, i));
                            }
                        }
                        match last_at(c, ss, end, 2) {
                            Some(b) => {
                                assert(break_point(c, start, end) == Some(b));
                                assert(space_char(c, b));
                                assert forall|j: int| b < j < end implies !#[trigger] space_char(c, j) by {
                                    assert(space_char(c, j) == space_at(c, j));
                                }
                            },
                            None => {
                                assert(!exists|i: int| ss <= i < end && #[trigger] space_char(c, i)) by {
                                    if exists|i: int| ss <= i < end && #[trigger] space_char(c, i) {
                                        let i = choose|i: int| ss <= i < end && #[trigger] space_char(c, i);
                                        assert(space_at(c, i));
                                    }
                                }
                            },
                        }
                    },
                }
            },
        }
    }
}


/// Reading one more character into the pieces finished so far and the piece in progress.
pub open spec fn piece_step(st: (Seq<Seq<char>>, Seq<char>), c: char) -> (Seq<Seq<char>>, Seq<char>) {
    if is_segment_sep(c) {
        (st.0.push(st.1), seq![])
    } else {
        (st.0, st.1.push(c))
    }
}

/// Reading `b` into the state `st`.
pub open spec fn pieces_from(st: (Seq<Seq<char>>, Seq<char>), b: Seq<char>) -> (Seq<Seq<char>>, Seq<char>)
    decreases b.len(),
{
    if b.len() == 0 {
        st
    } else {
        piece_step(pieces_from(st, b.drop_last()), b.last())
    }
}

proof fn lemma_pieces_acc_concat(a: Seq<char>, b: Seq<char>)
    ensures
        pieces_acc(a + b) == pieces_from(pieces_acc(a), b),
    decreases b.len(),
{
    if b.len() == 0 {
        assert(a + b =~= a);
    } else {
        assert((a + b).drop_last() =~= a + b.drop_last());
        assert((a + b).last() == b.last());
        lemma_pieces_acc_concat(a, b.drop_last());
    }
}

proof fn lemma_pieces_from_fresh(d: Seq<Seq<char>>, s: Seq<char>)
    ensures
        pieces_from((d, seq![]), s) == (d + pieces_acc(s).0, pieces_acc(s).1),
    decreases s.len(),
{
    if s.len() == 0 {
        assert(d + Seq::<Seq<char>>::empty() =~= d);
    } else {
        lemma_pieces_from_fresh(d, s.drop_last());
        let a = pieces_acc(s.drop_last());
        if is_segment_sep(s.last()) {
            assert((d + a.0).push(a.1) =~= d + a.0.push(a.1));
        }
    }
}

proof fn lemma_long_segments_append(x: Seq<Seq<char>>, y: Seq<Seq<char>>)
    ensures
        long_segments(x + y) == long_segments(x) + long_segments(y),
    decreases x.len(),
{
    if x.len() == 0 {
        assert(x + y =~= y);
        assert(Seq::<Seq<char>>::empty() + long_segments(y) =~= long_segments(y));
    } else {
        assert((x + y)[0] == x[0]);
        assert((x + y).drop_first() =~= x.drop_first() + y);
        lemma_long_segments_append(x.drop_first(), y);
        if trim(x[0]).len() >= 20 {
            assert(seq![trim(x[0])] + (long_segments(x.drop_first()) + long_segments(y)) =~= seq![trim(
                x[0],
            )] + long_segments(x.drop_first()) + long_segments(y));
        }
    }
}

/// Segments are the trimmed pieces between separators that keep at least 20
/// characters: a separator splits the text into two parts whose segments follow one
/// another, and a text without separators is one segment exactly when its trimmed
/// form has at least 20 characters.
pub proof fn lemma_segments_split(a: Seq<char>, c: char, b: Seq<char>, r: Seq<char>)
    ensures
        is_segment_sep(c) ==> segments_of(a + seq![c] + b) == segments_of(a) + segments_of(b),
        (forall|i: int| 0 <= i < r.len() ==> !is_segment_sep(#[trigger] r[i])) ==> segments_of(r) == (
        if trim(r).len() >= 20 {
            seq![trim(r)]
        } else {
            Seq::<Seq<char>>::empty()
        }),
{
    if is_segment_sep(c) {
        let ac = a + seq![c];
        assert(ac.drop_last() =~= a);
        assert(ac.last() == c);
        assert(pieces_acc(ac) == (pieces(a), Seq::<char>::empty()));
        lemma_pieces_acc_concat(ac, b);
        assert(a + seq![c] + b == ac + b);
        lemma_pieces_from_fresh(pieces(a), b);
        let pb = pieces_acc(b);
        assert(pieces(a + seq![c] + b) =~= pieces(a) + pieces(b));
        lemma_long_segments_append(pieces(a), pieces(b));
    }
    if forall|i: int| 0 <= i < r.len() ==> !is_segment_sep(#[trigger] r[i]) {
        lemma_pieces_of_run(r);
        assert(pieces(r) =~= seq![r]);
        let ps = seq![r];
        assert(ps.drop_first() =~= Seq::<Seq<char>>::empty());
        assert(long_segments(ps.drop_first()) == Seq::<Seq<char>>::empty());
        if trim(r).len() >= 20 {
            assert(seq![trim(r)] + Seq::<Seq<char>>::empty() =~= seq![trim(r)]);
        }
    }
}

proof fn lemma_pieces_of_run(r: Seq<char>)
    requires
        forall|i: int| 0 <= i < r.len() ==> !is_segment_sep(#[trigger] r[i]),
    ensures
        pieces_acc(r) == (Seq::<Seq<char>>::empty(), r),
    decreases r.len(),
{
    if r.len() > 0 {
        assert forall|i: int| 0 <= i < r.drop_last().len() implies !is_segment_sep(
            #[trigger] r.drop_last()[i],
        ) by {
            assert(r.drop_last()[i] == r[i]);
        }
        lemma_pieces_of_run(r.drop_last());
        assert(!is_segment_sep(r[r.len() - 1]));
        assert(r.drop_last().push(r.last()) =~= r);
    }
}


proof fn lemma_joined_step(texts: Seq<Seq<char>>, members: Seq<usize>, k: int)
    requires
        0 <= k < members.len(),
    ensures
        joined_members(texts, members.take(k + 1)) == (if k == 0 {
            texts[members[0] as int]
        } else {
            joined_members(texts, members.take(k)) + seq!['\n', '\n'] + texts[members[k] as int]
        }),
{
    let p = members.take(k + 1);
    assert(p.drop_last() =~= members.take(k));
    assert(p.last() == members[k]);
    if k == 0 {
        assert(p.len() == 1);
        assert(p[0] == members[0]);
    }
}

proof fn lemma_joined_prefix(texts: Seq<Seq<char>>, members: Seq<usize>, k: int)
    requires
        0 <= k <= members.len(),
    ensures
        joined_members(texts, members.take(k)).len() <= joined_members(texts, members).len(),
        joined_members(texts, members).take(joined_members(texts, members.take(k)).len() as int)
            == joined_members(texts, members.take(k)),
    decreases members.len() - k,
{
    if k == members.len() {
        assert(members.take(k) =~= members);
        assert(joined_members(texts, members).take(joined_members(texts, members).len() as int)
            =~= joined_members(texts, members));
    } else {
        lemma_joined_prefix(texts, members, k + 1);
        lemma_joined_step(texts, members, k);
        let jk = joined_members(texts, members.take(k));
        let jk1 = joined_members(texts, members.take(k + 1));
        let jn = joined_members(texts, members);
        if k == 0 {
            assert(members.take(0) =~= Seq::<usize>::empty());
            assert(jk =~= Seq::<char>::empty());
            assert(jn.take(0) =~= jk);
        } else {
            assert(jk1.take(jk.len() as int) =~= jk);
            assert(jn.take(jk.len() as int) =~= jn.take(jk1.len() as int).take(jk.len() as int));
        }
    }
}

/// In a cluster chunk, each segment's span holds exactly that segment's text, two
/// newlines separate consecutive segments, and the last segment ends the chunk.
pub proof fn lemma_cluster_spans(c: ClusterChunk, idx: nat, texts: Seq<Seq<char>>, members: Seq<usize>)
    requires
        cluster_chunk_is(c, idx, texts, members),
    ensures
        forall|k: int|
            0 <= k < members.len() ==> {
                let seg = #[trigger] c.segments@[k];
                &&& seg.start_char <= seg.end_char <= c.text@.len()
                &&& c.text@.subrange(seg.start_char as int, seg.end_char as int) == seg.text@
            },
        forall|k: int|
            1 <= k < members.len() ==> {
                let seg = #[trigger] c.segments@[k];
                let prev = c.segments@[k - 1];
                &&& seg.start_char == prev.end_char + 2
                &&& c.text@.subrange(prev.end_char as int, seg.start_char as int) == seq!['\n', '\n']
            },
        members.len() > 0 ==> c.segments@[0].start_char == 0 && c.segments@[members.len() - 1].end_char
            == c.end_char,
{
    let jn = joined_members(texts, members);
    assert forall|k: int| 0 <= k < members.len() implies {
        let seg = #[trigger] c.segments@[k];
        &&& seg.start_char <= seg.end_char <= c.text@.len()
        &&& c.text@.subrange(seg.start_char as int, seg.end_char as int) == seg.text@
        &&& seg.end_char == joined_members(texts, members.take(k + 1)).len()
        &&& (k >= 1 ==> c.segments@[k - 1].end_char == joined_members(texts, members.take(k)).len()
            && c.text@.subrange(c.segments@[k - 1].end_char as int, seg.start_char as int)
            == seq!['\n', '\n'])
    } by {
        let seg = c.segments@[k];
        lemma_joined_step(texts, members, k);
        lemma_joined_prefix(texts, members, k + 1);
        let jk1 = joined_members(texts, members.take(k + 1));
        let t = texts[members[k] as int];
        if k == 0 {
            assert(jk1.subrange(0, t.len() as int) =~= t);
            assert(jn.subrange(0, t.len() as int) =~= jk1.subrange(0, t.len() as int));
        } else {
            let jk = joined_members(texts, members.take(k));
            let prev = c.segments@[k - 1];
            lemma_joined_step(texts, members, k - 1);
            assert(jk.len() + 2 + t.len() == jk1.len());
            assert(jn.subrange(jk.len() + 2int, jk1.len() as int) =~= jk1.subrange(jk.len() + 2int, jk1.len() as int));
            assert(jk1.subrange(jk.len() + 2int, jk1.len() as int) =~= t);
            assert(jn.subrange(jk.len() as int, jk.len() + 2int) =~= jk1.subrange(jk.len() as int, jk.len() + 2int));
            assert(jk1.subrange(jk.len() as int, jk.len() + 2int) =~= seq!['\n', '\n']);
            let t0 = texts[members[k - 1] as int];
            if k - 1 == 0 {
                assert(prev.end_char == t0.len());
                assert(jk == t0);
            } else {
                let jkm = joined_members(texts, members.take(k - 1));
                assert(jk == jkm + seq!['\n', '\n'] + t0);
                assert(prev.end_char == jkm.len() + 2 + t0.len());
            }
        }
    }
    if members.len() > 0 {
        let last = members.len() - 1;
        assert(members.take(last + 1) =~= members);
        assert(c.segments@[last].end_char == jn.len());
    }
}


/// The window at `start` ends at its break point (or at its end, `chunk_chars`
/// characters on or at the end of the text, when it has none), and the next window
/// starts `overlap` characters before that end, but at least one character further on
/// and never before the current start.
pub proof fn lemma_window_steps(c: Seq<char>, start: int, chunk_chars: int, overlap: int)
    requires
        0 <= start < c.len(),
        chunk_chars >= 0,
        overlap >= 0,
    ensures
        ({
            let end = if start + chunk_chars < c.len() {
                start + chunk_chars
            } else {
                c.len() as int
            };
            let ae = window_end(c, start, chunk_chars);
            let nx = next_start(c, start, chunk_chars, overlap);
            &&& (break_point(c, start, end) matches Some(b) ==> ae == b)
            &&& (break_point(c, start, end) is None ==> ae == end)
            &&& start <= ae <= end
            &&& ae <= start ==> nx == start + 1
            &&& ae > start && overlap < ae - start ==> nx == ae - overlap
            &&& ae > start && overlap >= ae - start ==> nx == start + 1
            &&& start < nx
        }),
{
    let end = if start + chunk_chars < c.len() {
        start + chunk_chars
    } else {
        c.len() as int
    };
    lemma_break_point_choice(c, start, end);
    if end - start >= 100 {
        let ss = start + (end - start) * 6 / 10;
        assert(start <= ss <= end) by (nonlinear_arith)
            requires
                ss == start + (end - start) * 6 / 10,
                end - start >= 100,
        ;
        lemma_last_at_found(c, ss, end - 1, 0);
        lemma_last_at_found(c, ss, end - 1, 1);
        lemma_last_at_found(c, ss, end, 2);
    }
}

} // verus!
