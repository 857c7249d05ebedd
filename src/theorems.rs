//! Laws that relate the matchers to one another and to plain equality.
use vstd::prelude::*;

use crate::glob::{accepts, glob_match, is_marker, seg_match, split, split_from};

verus! {

/// Every piece that `split_from` cuts out of `s` avoids a character that `s` avoids.
proof fn lemma_pieces_avoid(s: Seq<char>, sep: Seq<char>, start: int, i: int, x: char)
    requires
        0 <= start <= i <= s.len(),
        !s.contains(x),
    ensures
        forall|k: int|
            0 <= k < split_from(s, sep, start, i).len() ==> !(#[trigger] split_from(
                s,
                sep,
                start,
                i,
            )[k]).contains(x),
    decreases s.len() - i,
{
    let r = split_from(s, sep, start, i);
    if sep.len() == 0 || i + sep.len() > s.len() {
        let piece = s.subrange(start, s.len() as int);
        assert(!piece.contains(x)) by {
            if piece.contains(x) {
                let t = choose|t: int| 0 <= t < piece.len() && piece[t] == x;
                assert(s[start + t] == x);
            }
        }
        assert(r =~= seq![piece]);
    } else if s.subrange(i, i + sep.len()) =~= sep {
        let piece = s.subrange(start, i);
        let rest = split_from(s, sep, i + sep.len(), i + sep.len());
        lemma_pieces_avoid(s, sep, i + sep.len(), i + sep.len(), x);
        assert(r == seq![piece] + rest);
        assert forall|k: int| 0 <= k < r.len() implies !(#[trigger] r[k]).contains(x) by {
            if k == 0 {
                if piece.contains(x) {
                    let t = choose|t: int| 0 <= t < piece.len() && piece[t] == x;
                    assert(s[start + t] == x);
                }
            } else {
                assert(r[k] == rest[k - 1]);
            }
        }
    } else {
        lemma_pieces_avoid(s, sep, start, i + 1, x);
        assert(r == split_from(s, sep, start, i + 1));
    }
}

/// Sequences of segments free of wildcard characters match exactly when they
/// are equal.
pub proof fn lemma_literal_segments(p: Seq<Seq<char>>, c: Seq<Seq<char>>)
    requires
        forall|k: int| 0 <= k < p.len() ==> !(#[trigger] p[k]).contains('*'),
        forall|k: int| 0 <= k < c.len() ==> !(#[trigger] c[k]).contains('*'),
    ensures
        seg_match(p, c) == (p == c),
    decreases p.len() + c.len(),
{
    if p.len() == 0 || c.len() == 0 {
        if p.len() == 1 && is_marker(p[0]) {
            assert(p[0][0] == '*');
        }
        if p.len() != c.len() {
            assert(p != c);
        } else {
            assert(p =~= c);
        }
    } else {
        if is_marker(p[0]) {
            assert(p[0][0] == '*');
        }
        lemma_literal_segments(p.drop_first(), c.drop_first());
        if p[0] == c[0] && p.drop_first() == c.drop_first() {
            assert(p =~= c.drop_first().insert(0, c[0]));
            assert(c =~= c.drop_first().insert(0, c[0]));
        }
        if p == c {
            assert(p.drop_first() == c.drop_first());
        }
    }
}

/// With no wildcard character in pattern or candidate, the pattern accepts
/// the candidate exactly when both cut into the same segments.
pub proof fn lemma_literal_patterns(pattern: Seq<char>, candidate: Seq<char>, sep: Seq<char>)
    requires
        !pattern.contains('*'),
        !candidate.contains('*'),
    ensures
        accepts(pattern, candidate, sep) == (split(pattern, sep) == split(candidate, sep)),
{
    lemma_pieces_avoid(pattern, sep, 0, 0, '*');
    lemma_pieces_avoid(candidate, sep, 0, 0, '*');
    lemma_literal_segments(split(pattern, sep), split(candidate, sep));
}

/// Every pattern segment accepts itself as a candidate segment.
pub proof fn lemma_glob_reflexive(s: Seq<char>)
    ensures
        glob_match(s, s),
    decreases s.len(),
{
    if s.len() > 0 {
        let t = s.drop_first();
        lemma_glob_reflexive(t);
        if s[0] == '*' {
            // The wildcard absorbs nothing here: `s` accepts its own tail.
            if t.len() == 0 {
                assert(s =~= seq!['*']);
            }
            assert(glob_match(s, t));
        }
    }
}

/// Every sequence of segments accepts itself.
pub proof fn lemma_segments_reflexive(p: Seq<Seq<char>>)
    ensures
        seg_match(p, p),
    decreases p.len(),
{
    if p.len() > 0 {
        let t = p.drop_first();
        lemma_segments_reflexive(t);
        if is_marker(p[0]) {
            if t.len() > 0 {
                assert(seg_match(p, t));
            }
        } else if p[0].contains('*') {
            lemma_glob_reflexive(p[0]);
        }
    }
}

/// Every pattern accepts itself as a candidate, under any separator.
pub proof fn lemma_pattern_accepts_itself(pattern: Seq<char>, sep: Seq<char>)
    ensures
        accepts(pattern, pattern, sep),
{
    lemma_segments_reflexive(split(pattern, sep));
}

/// A pattern that is one marker segment accepts every candidate.
pub proof fn lemma_marker_accepts_all(c: Seq<Seq<char>>)
    ensures
        seg_match(seq![seq!['*', '*']], c),
    decreases c.len(),
{
    let p = seq![seq!['*', '*']];
    assert(is_marker(p[0]));
    if c.len() > 0 {
        lemma_marker_accepts_all(c.drop_first());
    }
}

/// A marker segment appended to a pattern accepts any number of further
/// candidate segments, none included, after what the pattern accepted. The
/// one exception: with no further segments, a pattern that already ends in a
/// marker gains nothing from a second one.
pub proof fn lemma_trailing_marker(q: Seq<Seq<char>>, c1: Seq<Seq<char>>, c2: Seq<Seq<char>>)
    requires
        seg_match(q, c1),
        c2.len() > 0 || q.len() == 0 || !is_marker(q.last()),
    ensures
        seg_match(q.push(seq!['*', '*']), c1 + c2),
    decreases q.len() + c1.len(),
{
    let mk = seq!['*', '*'];
    let p = q.push(mk);
    let c = c1 + c2;
    if q.len() == 0 {
        assert(p =~= seq![mk]);
        assert(c1 =~= Seq::<Seq<char>>::empty());
        assert(c =~= c2);
        lemma_marker_accepts_all(c2);
    } else if c1.len() == 0 {
        // Only a lone marker accepts no segments; the new marker follows it.
        assert(q =~= seq![mk]);
        assert(c =~= c2);
        assert(p.drop_first() =~= seq![mk]);
        lemma_marker_accepts_all(c2);
        if c2.len() == 0 {
            assert(is_marker(q.last()));
        }
    } else {
        assert(p[0] == q[0]);
        assert(p.drop_first() =~= q.drop_first().push(mk));
        assert(c[0] == c1[0]);
        assert(c.drop_first() =~= c1.drop_first() + c2);
        if q.len() > 1 {
            assert(q.drop_first().last() == q.last());
        }
        if is_marker(q[0]) {
            if seg_match(q.drop_first(), c1) {
                if q.len() > 1 {
                    lemma_trailing_marker(q.drop_first(), c1, c2);
                } else {
                    assert(q.drop_first().len() == 0);
                    lemma_trailing_marker(q.drop_first(), c1, c2);
                }
            } else {
                if c1.len() > 1 {
                    lemma_trailing_marker(q, c1.drop_first(), c2);
                } else {
                    // `q` accepts no segments, so it is a lone marker.
                    assert(seg_match(q, c1.drop_first()));
                    assert(q.len() == 1 && q[0] =~= mk);
                    assert(q =~= seq![mk]);
                    assert(p.drop_first() =~= seq![mk]);
                    lemma_marker_accepts_all(c);
                }
            }
        } else {
            if q.len() == 1 {
                assert(q.drop_first().len() == 0);
            }
            lemma_trailing_marker(q.drop_first(), c1.drop_first(), c2);
        }
    }
}

/// Without marker segments a pattern accepts only candidates with as many
/// segments as it has: no wildcard character reaches past its own segment.
pub proof fn lemma_segment_count(p: Seq<Seq<char>>, c: Seq<Seq<char>>)
    requires
        forall|k: int| 0 <= k < p.len() ==> !is_marker(#[trigger] p[k]),
        seg_match(p, c),
    ensures
        p.len() == c.len(),
    decreases p.len() + c.len(),
{
    if p.len() > 0 && c.len() > 0 {
        assert(!is_marker(p[0]));
        assert forall|k: int| 0 <= k < p.drop_first().len() implies !is_marker(
            #[trigger] p.drop_first()[k],
        ) by {
            assert(p.drop_first()[k] == p[k + 1]);
        }
        lemma_segment_count(p.drop_first(), c.drop_first());
    } else if p.len() > 0 {
        assert(!is_marker(p[0]));
    }
}

/// Two marker segments before the segments `r` accept what one does; once
/// `r` is not empty, they accept exactly the same.
proof fn lemma_double_marker_front(r: Seq<Seq<char>>, c: Seq<Seq<char>>)
    ensures
        seg_match(seq![seq!['*', '*'], seq!['*', '*']] + r, c) ==> seg_match(
            seq![seq!['*', '*']] + r,
            c,
        ),
        r.len() > 0 ==> seg_match(seq![seq!['*', '*'], seq!['*', '*']] + r, c) == seg_match(
            seq![seq!['*', '*']] + r,
            c,
        ),
    decreases c.len(),
{
    let mk = seq!['*', '*'];
    let two = seq![mk, mk] + r;
    let one = seq![mk] + r;
    assert(is_marker(mk));
    assert(two[0] == mk);
    assert(one[0] == mk);
    assert(two.drop_first() =~= one);
    assert(one.drop_first() =~= r);
    if c.len() > 0 {
        lemma_double_marker_front(r, c.drop_first());
        if c.len() == 1 {
            assert(!seg_match(two, c.drop_first()));
        }
    }
}

/// Two consecutive marker segments accept only what one accepts in their
/// place; where more segments follow them, they accept exactly the same.
pub proof fn lemma_consecutive_markers(
    q: Seq<Seq<char>>,
    r: Seq<Seq<char>>,
    c: Seq<Seq<char>>,
)
    ensures
        seg_match(q + seq![seq!['*', '*'], seq!['*', '*']] + r, c) ==> seg_match(
            q + seq![seq!['*', '*']] + r,
            c,
        ),
        r.len() > 0 ==> seg_match(q + seq![seq!['*', '*'], seq!['*', '*']] + r, c) == seg_match(
            q + seq![seq!['*', '*']] + r,
            c,
        ),
    decreases q.len() + c.len(),
{
    let mk = seq!['*', '*'];
    let two = q + seq![mk, mk] + r;
    let one = q + seq![mk] + r;
    if q.len() == 0 {
        assert(two =~= seq![mk, mk] + r);
        assert(one =~= seq![mk] + r);
        lemma_double_marker_front(r, c);
    } else if c.len() > 0 {
        let t = q.drop_first();
        assert(two[0] == q[0]);
        assert(one[0] == q[0]);
        assert(two.drop_first() =~= t + seq![mk, mk] + r);
        assert(one.drop_first() =~= t + seq![mk] + r);
        lemma_consecutive_markers(t, r, c);
        lemma_consecutive_markers(q, r, c.drop_first());
        lemma_consecutive_markers(t, r, c.drop_first());
    }
}

/// Empty strings: the empty pattern accepts the empty candidate, and neither
/// accepts a one-character string in the other's place, under any separator.
pub proof fn lemma_empty_strings(sep: Seq<char>)
    ensures
        accepts(seq![], seq![], sep),
        !accepts(seq!['a'], seq![], sep),
        !accepts(seq![], seq!['a'], sep),
{
    let e: Seq<char> = seq![];
    let a: Seq<char> = seq!['a'];
    assert(e.subrange(0, 0) =~= e);
    assert(a.subrange(0, 1) =~= a);
    assert(split(e, sep) =~= seq![e]);
    assert(!is_marker(e));
    assert(!e.contains('*'));
    assert(!a.contains('*')) by {
        assert(a[0] == 'a');
    }
    assert(a != e) by {
        assert(a.len() != e.len());
    }
    let es: Seq<Seq<char>> = seq![e];
    assert(es.drop_first() =~= Seq::<Seq<char>>::empty());
    lemma_segments_reflexive(es);
    assert(!is_marker(a));
    if sep.len() == 1 && a.subrange(0, 1) =~= sep {
        assert(a.subrange(1, 1) =~= e);
        assert(a.subrange(0, 0) =~= e);
        assert(split_from(a, sep, 1, 1) =~= seq![e]);
        let two: Seq<Seq<char>> = seq![e] + seq![e];
        assert(split(a, sep) =~= two);
        assert(two.drop_first() =~= es);
        assert(two[0] == e && es[0] == e);
        assert(!seg_match(es, Seq::<Seq<char>>::empty()));
        assert(!seg_match(two, es));
        assert(!seg_match(es.drop_first(), two.drop_first()));
        assert(!seg_match(es, two));
    } else {
        if sep.len() > 0 {
            assert(split_from(a, sep, 0, 1) =~= seq![a]);
        }
        assert(split(a, sep) =~= seq![a]);
        let sa: Seq<Seq<char>> = seq![a];
        assert(sa[0] == a && es[0] == e);
        assert(!seg_match(sa, es));
        assert(!seg_match(es, sa));
    }
}

} // verus!
