use vstd::prelude::*;

verus! {

/// The single-wildcard character.
pub open spec fn is_wildcard(ch: char) -> bool {
    ch == '*'
}

/// A pattern segment that is exactly two wildcard characters.
pub open spec fn is_marker(seg: Seq<char>) -> bool {
    seg =~= seq!['*', '*']
}

/// Character-level matching of one pattern segment against one candidate segment.
pub open spec fn glob_match(p: Seq<char>, c: Seq<char>) -> bool
    decreases p.len() + c.len(),
{
    if p.len() == 0 {
        c.len() == 0
    } else if c.len() == 0 {
        p =~= seq!['*']
    } else if is_wildcard(p[0]) {
        glob_match(p.drop_first(), c) || glob_match(p, c.drop_first())
    } else {
        p[0] == c[0] && glob_match(p.drop_first(), c.drop_first())
    }
}

/// Segment-level matching of a sequence of pattern segments against a
/// sequence of candidate segments.
pub open spec fn seg_match(p: Seq<Seq<char>>, c: Seq<Seq<char>>) -> bool
    decreases p.len() + c.len(),
{
    if p.len() == 0 {
        c.len() == 0
    } else if c.len() == 0 {
        p.len() == 1 && is_marker(p[0])
    } else if is_marker(p[0]) {
        seg_match(p.drop_first(), c) || seg_match(p, c.drop_first())
    } else if p[0].contains('*') {
        glob_match(p[0], c[0]) && seg_match(p.drop_first(), c.drop_first())
    } else {
        p[0] == c[0] && seg_match(p.drop_first(), c.drop_first())
    }
}

/// The segments of `s` from the segment that starts at `start`, looking for
/// the next separator at `i` onward.
pub open spec fn split_from(s: Seq<char>, sep: Seq<char>, start: int, i: int) -> Seq<Seq<char>>
    decreases s.len() - i,
{
    if sep.len() == 0 || i < 0 || i + sep.len() > s.len() {
        seq![s.subrange(start, s.len() as int)]
    } else if s.subrange(i, i + sep.len()) =~= sep {
        seq![s.subrange(start, i)] + split_from(s, sep, i + sep.len(), i + sep.len())
    } else {
        split_from(s, sep, start, i + 1)
    }
}

/// `s` cut at every occurrence of `sep`, leftmost first; an empty separator
/// leaves `s` whole.
pub open spec fn split(s: Seq<char>, sep: Seq<char>) -> Seq<Seq<char>> {
    split_from(s, sep, 0, 0)
}

/// Whether `pattern` accepts `candidate` when both are cut at `sep`.
pub open spec fn accepts(pattern: Seq<char>, candidate: Seq<char>, sep: Seq<char>) -> bool {
    seg_match(split(pattern, sep), split(candidate, sep))
}

/// Character-level matching of the suffixes of `p` and `c` from `i` and `j`.
pub open spec fn glob_suffix(p: Seq<char>, c: Seq<char>, i: int, j: int) -> bool {
    glob_match(p.subrange(i, p.len() as int), c.subrange(j, c.len() as int))
}

proof fn lemma_glob_step(p: Seq<char>, c: Seq<char>, i: int, j: int)
    requires
        0 <= i < p.len(),
        0 <= j < c.len(),
    ensures
        glob_suffix(p, c, i, j) == if is_wildcard(p[i]) {
            glob_suffix(p, c, i + 1, j) || glob_suffix(p, c, i, j + 1)
        } else {
            p[i] == c[j] && glob_suffix(p, c, i + 1, j + 1)
        },
{
    let ps = p.subrange(i, p.len() as int);
    let cs = c.subrange(j, c.len() as int);
    assert(ps.drop_first() =~= p.subrange(i + 1, p.len() as int));
    assert(cs.drop_first() =~= c.subrange(j + 1, c.len() as int));
}

proof fn lemma_glob_edges(p: Seq<char>, c: Seq<char>, i: int, j: int)
    requires
        0 <= i <= p.len(),
        0 <= j <= c.len(),
    ensures
        i == p.len() ==> glob_suffix(p, c, i, j) == (j == c.len()),
        i < p.len() && j == c.len() ==> glob_suffix(p, c, i, j) == (i + 1 == p.len()
            && is_wildcard(p[i])),
{
    let ps = p.subrange(i, p.len() as int);
    if i + 1 == p.len() && is_wildcard(p[i]) {
        assert(ps =~= seq!['*']);
    } else if ps =~= seq!['*'] {
        assert(ps[0] == p[i]);
    }
}

/// Character-level matching by a table over suffix positions: each row holds,
/// for one pattern position, the verdict for every candidate position.
fn glob_table(p: &[char], c: &[char]) -> (r: bool)
    ensures
        r == glob_match(p@, c@),
{
    let n = p.len();
    let m = c.len();
    let mut next: Vec<bool> = Vec::new();
    let mut j: usize = 0;
    while j < m
        invariant
            j <= m,
            next.len() == j,
            forall|k: int| 0 <= k < j ==> !next@[k],
        decreases m - j,
    {
        next.push(false);
        j = j + 1;
    }
    next.push(true);
    proof {
        assert forall|k: int| 0 <= k <= m implies next@[k] == glob_suffix(p@, c@, n as int, k) by {
            lemma_glob_edges(p@, c@, n as int, k);
        }
    }
    let mut i: usize = n;
    while i > 0
        invariant
            i <= n,
            n == p.len(),
            m == c.len(),
            next.len() == m + 1,
            forall|k: int| 0 <= k <= m ==> next@[k] == glob_suffix(p@, c@, i as int, k),
        decreases i,
    {
        i = i - 1;
        let mut cur: Vec<bool> = Vec::new();
        let mut k: usize = 0;
        while k < m
            invariant
                k <= m,
                cur.len() == k,
            decreases m - k,
        {
            cur.push(false);
            k = k + 1;
        }
        let last = i + 1 == n && p[i] == '*';
        cur.push(last);
        proof {
            lemma_glob_edges(p@, c@, i as int, m as int);
        }
        let mut j: usize = m;
        while j > 0
            invariant
                i < n,
                j <= m,
                n == p.len(),
                m == c.len(),
                cur.len() == m + 1,
                next.len() == m + 1,
                forall|k: int| 0 <= k <= m ==> next@[k] == glob_suffix(p@, c@, i + 1, k),
                forall|k: int| j <= k <= m ==> cur@[k] == glob_suffix(p@, c@, i as int, k),
            decreases j,
        {
            j = j - 1;
            proof {
                lemma_glob_step(p@, c@, i as int, j as int);
            }
            let v = if p[i] == '*' {
                next[j] || cur[j + 1]
            } else {
                p[i] == c[j] && next[j + 1]
            };
            cur.set(j, v);
        }
        next = cur;
    }
    proof {
        assert(p@.subrange(0, n as int) =~= p@);
        assert(c@.subrange(0, m as int) =~= c@);
    }
    next[0]
}

/// Segment-level matching of the suffixes of `p` and `c` from `i` and `j`.
pub open spec fn seg_suffix(p: Seq<Seq<char>>, c: Seq<Seq<char>>, i: int, j: int) -> bool {
    seg_match(p.subrange(i, p.len() as int), c.subrange(j, c.len() as int))
}

proof fn lemma_seg_step(p: Seq<Seq<char>>, c: Seq<Seq<char>>, i: int, j: int)
    requires
        0 <= i < p.len(),
        0 <= j < c.len(),
    ensures
        seg_suffix(p, c, i, j) == if is_marker(p[i]) {
            seg_suffix(p, c, i + 1, j) || seg_suffix(p, c, i, j + 1)
        } else if p[i].contains('*') {
            glob_match(p[i], c[j]) && seg_suffix(p, c, i + 1, j + 1)
        } else {
            p[i] == c[j] && seg_suffix(p, c, i + 1, j + 1)
        },
{
    let ps = p.subrange(i, p.len() as int);
    let cs = c.subrange(j, c.len() as int);
    assert(ps.drop_first() =~= p.subrange(i + 1, p.len() as int));
    assert(cs.drop_first() =~= c.subrange(j + 1, c.len() as int));
}

proof fn lemma_seg_edges(p: Seq<Seq<char>>, c: Seq<Seq<char>>, i: int, j: int)
    requires
        0 <= i <= p.len(),
        0 <= j <= c.len(),
    ensures
        i == p.len() ==> seg_suffix(p, c, i, j) == (j == c.len()),
        i < p.len() && j == c.len() ==> seg_suffix(p, c, i, j) == (i + 1 == p.len()
            && is_marker(p[i])),
{
}

fn has_wildcard(s: &[char]) -> (r: bool)
    ensures
        r == s@.contains('*'),
{
    let mut i: usize = 0;
    while i < s.len()
        invariant
            i <= s.len(),
            forall|k: int| 0 <= k < i ==> s@[k] != '*',
        decreases s.len() - i,
    {
        if s[i] == '*' {
            return true;
        }
        i = i + 1;
    }
    false
}

fn is_marker_segment(s: &[char]) -> (r: bool)
    ensures
        r == is_marker(s@),
{
    s.len() == 2 && s[0] == '*' && s[1] == '*'
}

fn same_chars(a: &[char], b: &[char]) -> (r: bool)
    ensures
        r == (a@ == b@),
{
    if a.len() != b.len() {
        return false;
    }
    let mut i: usize = 0;
    while i < a.len()
        invariant
            i <= a.len(),
            a.len() == b.len(),
            forall|k: int| 0 <= k < i ==> a@[k] == b@[k],
        decreases a.len() - i,
    {
        if a[i] != b[i] {
            return false;
        }
        i = i + 1;
    }
    assert(a@ =~= b@);
    true
}

/// Segment-level matching by a table over suffix positions, as in
/// `glob_table`, one segment per step.
fn seg_table(p: &[Vec<char>], c: &[Vec<char>]) -> (r: bool)
    ensures
        r == seg_match(p.deep_view(), c.deep_view()),
{
    let ghost pv = p.deep_view();
    let ghost cv = c.deep_view();
    let n = p.len();
    let m = c.len();
    let mut next: Vec<bool> = Vec::new();
    let mut j: usize = 0;
    while j < m
        invariant
            j <= m,
            next.len() == j,
            forall|k: int| 0 <= k < j ==> !next@[k],
        decreases m - j,
    {
        next.push(false);
        j = j + 1;
    }
    next.push(true);
    proof {
        assert forall|k: int| 0 <= k <= m implies next@[k] == seg_suffix(pv, cv, n as int, k) by {
            lemma_seg_edges(pv, cv, n as int, k);
        }
    }
    let mut i: usize = n;
    while i > 0
        invariant
            i <= n,
            n == p.len(),
            m == c.len(),
            pv == p.deep_view(),
            cv == c.deep_view(),
            next.len() == m + 1,
            forall|k: int| 0 <= k <= m ==> next@[k] == seg_suffix(pv, cv, i as int, k),
        decreases i,
    {
        i = i - 1;
        let seg = p[i].as_slice();
        let marker = is_marker_segment(seg);
        let wild = has_wildcard(seg);
        let mut cur: Vec<bool> = Vec::new();
        let mut k: usize = 0;
        while k < m
            invariant
                k <= m,
                cur.len() == k,
            decreases m - k,
        {
            cur.push(false);
            k = k + 1;
        }
        cur.push(i + 1 == n && marker);
        proof {
            lemma_seg_edges(pv, cv, i as int, m as int);
        }
        let mut j: usize = m;
        while j > 0
            invariant
                i < n,
                j <= m,
                n == p.len(),
                m == c.len(),
                pv == p.deep_view(),
                cv == c.deep_view(),
                seg@ == pv[i as int],
                marker == is_marker(pv[i as int]),
                wild == pv[i as int].contains('*'),
                cur.len() == m + 1,
                next.len() == m + 1,
                forall|k: int| 0 <= k <= m ==> next@[k] == seg_suffix(pv, cv, i + 1, k),
                forall|k: int| j <= k <= m ==> cur@[k] == seg_suffix(pv, cv, i as int, k),
            decreases j,
        {
            j = j - 1;
            proof {
                lemma_seg_step(pv, cv, i as int, j as int);
                assert(cv[j as int] == c@[j as int]@);
            }
            let v = if marker {
                next[j] || cur[j + 1]
            } else if wild {
                next[j + 1] && glob_table(seg, c[j].as_slice())
            } else {
                next[j + 1] && same_chars(seg, c[j].as_slice())
            };
            cur.set(j, v);
        }
        next = cur;
    }
    proof {
        assert(pv.subrange(0, n as int) =~= pv);
        assert(cv.subrange(0, m as int) =~= cv);
    }
    next[0]
}

fn copy_range(s: &[char], from: usize, to: usize) -> (r: Vec<char>)
    requires
        from <= to <= s.len(),
    ensures
        r@ == s@.subrange(from as int, to as int),
{
    let mut r: Vec<char> = Vec::new();
    let mut i: usize = from;
    while i < to
        invariant
            from <= i <= to <= s.len(),
            r@ == s@.subrange(from as int, i as int),
        decreases to - i,
    {
        r.push(s[i]);
        i = i + 1;
    }
    r
}

fn occurs_at(s: &[char], i: usize, sep: &[char]) -> (r: bool)
    requires
        i + sep.len() <= s.len(),
    ensures
        r == (s@.subrange(i as int, i + sep.len()) =~= sep@),
{
    let mut k: usize = 0;
    while k < sep.len()
        invariant
            k <= sep.len(),
            i + sep.len() <= s.len(),
            forall|t: int| 0 <= t < k ==> s@[i + t] == sep@[t],
        decreases sep.len() - k,
    {
        if s[i + k] != sep[k] {
            assert(s@.subrange(i as int, i + sep.len())[k as int] != sep@[k as int]);
            return false;
        }
        k = k + 1;
    }
    true
}

/// Cuts `s` at every occurrence of `sep`, leftmost first.
fn split_chars(s: &[char], sep: &[char]) -> (r: Vec<Vec<char>>)
    ensures
        r.deep_view() == split(s@, sep@),
{
    let mut out: Vec<Vec<char>> = Vec::new();
    let n = s.len();
    let k = sep.len();
    if k == 0 {
        let whole = copy_range(s, 0, n);
        out.push(whole);
        assert(whole.deep_view() =~= whole@);
        assert(out.deep_view() =~= split(s@, sep@));
        return out;
    }
    let mut start: usize = 0;
    let mut i: usize = 0;
    while k <= n - i
        invariant
            n == s.len(),
            k == sep.len(),
            k > 0,
            start <= i <= n,
            out.deep_view() + split_from(s@, sep@, start as int, i as int) == split(s@, sep@),
        decreases n - i,
    {
        let ghost before = out.deep_view();
        let ghost old_start = start;
        let ghost old_i = i;
        if occurs_at(s, i, sep) {
            let piece = copy_range(s, start, i);
            out.push(piece);
            i = i + k;
            start = i;
            assert(piece.deep_view() =~= piece@);
            assert(out.deep_view() =~= before.push(piece@));
            let ghost rest = split_from(s@, sep@, i as int, i as int);
            assert(split_from(s@, sep@, old_start as int, old_i as int) == seq![piece@] + rest);
            assert(before + (seq![piece@] + rest) =~= out.deep_view() + rest);
        } else {
            i = i + 1;
        }
    }
    let ghost before = out.deep_view();
    let last = copy_range(s, start, n);
    out.push(last);
    assert(last.deep_view() =~= last@);
    assert(out.deep_view() =~= before.push(last@));
    assert(out.deep_view() =~= before + split_from(s@, sep@, start as int, i as int));
    out
}

fn chars_of(s: &str) -> (r: Vec<char>)
    ensures
        r@ == s@,
{
    let mut r: Vec<char> = Vec::new();
    for ch in it: s.chars()
        invariant
            r@ == it.seq().subrange(0, it.index() as int),
    {
        r.push(ch);
    }
    r
}

fn segments_of(v: &[&str]) -> (r: Vec<Vec<char>>)
    ensures
        r.deep_view() == v.deep_view(),
{
    let mut r: Vec<Vec<char>> = Vec::new();
    let mut i: usize = 0;
    while i < v.len()
        invariant
            i <= v.len(),
            r.deep_view() =~= v.deep_view().subrange(0, i as int),
        decreases v.len() - i,
    {
        let ghost before = r.deep_view();
        let seg = chars_of(v[i]);
        assert(seg.deep_view() =~= seg@);
        r.push(seg);
        assert(r.deep_view() =~= before.push(seg@));
        i = i + 1;
    }
    r
}

/// Returns true iff `pattern` accepts `candidate`, both cut into segments at
/// every occurrence of `sep`; an empty `sep` leaves each string whole.
///
/// A pattern segment `**` accepts any number of whole candidate segments; a
/// `*` inside any other pattern segment accepts any run of characters within
/// that one segment. Characters are Unicode scalar values.
pub fn matches(pattern: &str, candidate: &str, sep: &str) -> (r: bool)
    ensures
        r == accepts(pattern@, candidate@, sep@),
{
    let p = chars_of(pattern);
    let c = chars_of(candidate);
    let s = chars_of(sep);
    let ps = split_chars(p.as_slice(), s.as_slice());
    let cs = split_chars(c.as_slice(), s.as_slice());
    seg_table(ps.as_slice(), cs.as_slice())
}

/// Returns true iff the pattern segments accept the candidate segments.
pub fn matches_segments(pattern: &[&str], candidate: &[&str]) -> (r: bool)
    ensures
        r == seg_match(pattern.deep_view(), candidate.deep_view()),
{
    let p = segments_of(pattern);
    let c = segments_of(candidate);
    seg_table(p.as_slice(), c.as_slice())
}

/// Returns true iff the pattern segment accepts the candidate segment, where
/// each `*` in `pattern` accepts any run of characters.
pub fn matches_glob(pattern: &str, candidate: &str) -> (r: bool)
    ensures
        r == glob_match(pattern@, candidate@),
{
    let p = chars_of(pattern);
    let c = chars_of(candidate);
    glob_table(p.as_slice(), c.as_slice())
}

} // verus!
