//! The interval-set container and its five boolean operators: complement,
//! union, intersection, difference and symmetric difference. Every operator
//! is specified by the set of points the result covers.

use vstd::prelude::*;

use crate::types::{
    all_wf, covers, disjoint, domain_max, ends_sorted, in_span, lemma_covers_in_domain,
    lemma_separated_props, render_pair, rendered_pair, separated, sorted_by_begin, span_wf, Range,
    Span, TypeRange,
};

verus! {

/// An ordered collection of same-domain ranges, plus an optional cached
/// domain tag; the first element's tag stands in when none is cached.
#[derive(Clone, Debug)]
pub struct Op {
    pub ranges: Vec<Span>,
    pub range_of: Option<TypeRange>,
}

/// Build the interval of the domain `range_of` with the given bounds.
pub fn build_from(range_of: TypeRange, begin: u64, end: u64) -> (r: Span)
    ensures
        r == (Span { begin, end, range_of }),
{
    Span { begin, end, range_of }
}

/// Appending one interval adds exactly its points to the coverage.
proof fn lemma_covers_snoc(rs: Seq<Span>, e: Span)
    ensures
        forall|x: int| covers(rs.push(e), x) <==> covers(rs, x) || in_span(e, x),
{
    assert forall|x: int| covers(rs.push(e), x) <==> covers(rs, x) || in_span(e, x) by {
        if covers(rs.push(e), x) {
            let i = choose|i: int| 0 <= i < rs.push(e).len() && in_span(rs.push(e)[i], x);
            if i < rs.len() {
                assert(in_span(rs[i], x));
            }
        }
        if covers(rs, x) {
            let i = choose|i: int| 0 <= i < rs.len() && in_span(rs[i], x);
            assert(in_span(rs.push(e)[i], x));
        }
        if in_span(e, x) {
            assert(in_span(rs.push(e)[rs.len() as int], x));
        }
    }
}

/// Concatenation covers exactly the union of the two coverages.
proof fn lemma_covers_concat(a: Seq<Span>, b: Seq<Span>)
    ensures
        forall|x: int| covers(a + b, x) <==> covers(a, x) || covers(b, x),
{
    assert forall|x: int| covers(a + b, x) <==> covers(a, x) || covers(b, x) by {
        if covers(a + b, x) {
            let i = choose|i: int| 0 <= i < (a + b).len() && in_span((a + b)[i], x);
            if i < a.len() {
                assert(in_span(a[i], x));
            } else {
                assert(in_span(b[i - a.len()], x));
            }
        }
        if covers(a, x) {
            let i = choose|i: int| 0 <= i < a.len() && in_span(a[i], x);
            assert(in_span((a + b)[i], x));
        }
        if covers(b, x) {
            let i = choose|i: int| 0 <= i < b.len() && in_span(b[i], x);
            assert(in_span((a + b)[a.len() + i], x));
        }
    }
}

/// The two lists hold the same elements, multiplicities aside.
spec fn same_members(a: Seq<Span>, b: Seq<Span>) -> bool {
    (forall|k: int| 0 <= k < a.len() ==> b.contains(#[trigger] a[k])) && (forall|k: int|
        0 <= k < b.len() ==> a.contains(#[trigger] b[k]))
}

/// Lists with the same elements cover the same points.
proof fn lemma_same_members_cover(a: Seq<Span>, b: Seq<Span>)
    requires
        same_members(a, b),
    ensures
        forall|x: int| covers(a, x) <==> covers(b, x),
{
    assert forall|x: int| covers(a, x) <==> covers(b, x) by {
        if covers(a, x) {
            let i = choose|i: int| 0 <= i < a.len() && in_span(a[i], x);
            assert(b.contains(a[i]));
            let j = choose|j: int| 0 <= j < b.len() && b[j] == a[i];
            assert(in_span(b[j], x));
        }
        if covers(b, x) {
            let i = choose|i: int| 0 <= i < b.len() && in_span(b[i], x);
            assert(a.contains(b[i]));
            let j = choose|j: int| 0 <= j < a.len() && a[j] == b[i];
            assert(in_span(a[j], x));
        }
    }
}

/// Well-formedness carries over to a list with the same elements.
proof fn lemma_same_members_wf(a: Seq<Span>, b: Seq<Span>, t: TypeRange)
    requires
        same_members(a, b),
        all_wf(a, t),
    ensures
        all_wf(b, t),
{
    assert forall|k: int| 0 <= k < b.len() implies span_wf(#[trigger] b[k]) && b[k].range_of
        == t by {
        assert(a.contains(b[k]));
        let i = choose|i: int| 0 <= i < a.len() && a[i] == b[k];
        assert(span_wf(a[i]));
    }
}

/// Swapping two positions leaves the element collection unchanged.
proof fn lemma_swap_same_members(orig: Seq<Span>, s: Seq<Span>, a: int, b: int)
    requires
        same_members(orig, s),
        0 <= a < s.len(),
        0 <= b < s.len(),
    ensures
        same_members(orig, s.update(a, s[b]).update(b, s[a])),
{
    let s2 = s.update(a, s[b]).update(b, s[a]);
    assert forall|k: int| 0 <= k < s2.len() implies orig.contains(#[trigger] s2[k]) by {
        if k == b {
            assert(s2[k] == s[a]);
        } else if k == a {
            assert(s2[k] == s[b]);
        } else {
            assert(s2[k] == s[k]);
        }
    }
    assert forall|k: int| 0 <= k < orig.len() implies s2.contains(#[trigger] orig[k]) by {
        assert(s.contains(orig[k]));
        let p = choose|p: int| 0 <= p < s.len() && s[p] == orig[k];
        if p == a {
            assert(s2[b] == s[a]);
        } else if p == b {
            assert(s2[a] == s[b]);
        } else {
            assert(s2[p] == s[p]);
        }
    }
}

/// Coverage splits into the last interval and the rest.
proof fn lemma_covers_last(rs: Seq<Span>)
    requires
        rs.len() > 0,
    ensures
        forall|x: int| covers(rs, x) <==> covers(rs.drop_last(), x) || in_span(rs.last(), x),
{
    assert forall|x: int|
        covers(rs, x) <==> covers(rs.drop_last(), x) || in_span(rs.last(), x) by {
        if covers(rs, x) {
            let i = choose|i: int| 0 <= i < rs.len() && in_span(rs[i], x);
            if i < rs.len() - 1 {
                assert(in_span(rs.drop_last()[i], x));
            }
        }
        if covers(rs.drop_last(), x) {
            let i = choose|i: int| 0 <= i < rs.drop_last().len() && in_span(rs.drop_last()[i], x);
            assert(in_span(rs[i], x));
        }
        if in_span(rs.last(), x) {
            assert(in_span(rs[rs.len() - 1], x));
        }
    }
}

/// What a rendered interval list looks like: each pair's text in order,
/// separated by a comma and a space.
pub open spec fn rendered_list(rs: Seq<Span>) -> Seq<char>
    decreases rs.len(),
{
    if rs.len() == 0 {
        Seq::empty()
    } else if rs.len() == 1 {
        rendered_pair(rs[0].begin, rs[0].end)
    } else {
        rendered_list(rs.drop_last()) + ", "@ + rendered_pair(rs.last().begin, rs.last().end)
    }
}

/// The gap between two successive intervals: one interval where at least
/// one point lies strictly between them, nothing otherwise.
pub open spec fn gap_between(cur: Span, next: Span, t: TypeRange) -> Seq<Span> {
    if next.begin > cur.end + 1 {
        seq![Span { begin: (cur.end + 1) as u64, end: (next.begin - 1) as u64, range_of: t }]
    } else {
        Seq::empty()
    }
}

/// The gaps between successive intervals of the list, in order.
pub open spec fn inner_gaps(s: Seq<Span>, t: TypeRange) -> Seq<Span>
    decreases s.len(),
{
    if s.len() <= 1 {
        Seq::empty()
    } else {
        inner_gaps(s.drop_last(), t) + gap_between(s[s.len() - 2], s.last(), t)
    }
}

/// The exact complement list (of a nonempty operand): the leading gap below
/// the first interval, the inner gaps, and the trailing gap up to the
/// domain maximum.
pub open spec fn not_spec(s: Seq<Span>, t: TypeRange) -> Seq<Span> {
    let lead = if s[0].begin != 0 {
        seq![Span { begin: 0, end: (s[0].begin - 1) as u64, range_of: t }]
    } else {
        Seq::empty()
    };
    let trail = if s.last().end != domain_max(t) {
        seq![Span { begin: (s.last().end + 1) as u64, end: domain_max(t), range_of: t }]
    } else {
        Seq::empty()
    };
    lead + inner_gaps(s, t) + trail
}

/// The overlap of two intervals, tagged with the domain `t`.
pub open spec fn span_inter(sl: Span, sr: Span, t: TypeRange) -> Span {
    Span {
        begin: if sl.begin >= sr.begin {
            sl.begin
        } else {
            sr.begin
        },
        end: if sl.end <= sr.end {
            sl.end
        } else {
            sr.end
        },
        range_of: t,
    }
}

/// The exact intersection list: the literal two-pointer sweep. The overlap
/// of the two current intervals is emitted when they meet, and the side
/// whose interval ends first is advanced.
pub open spec fn inter_spec(a: Seq<Span>, b: Seq<Span>, t: TypeRange) -> Seq<Span>
    decreases a.len() + b.len(),
{
    if a.len() == 0 || b.len() == 0 {
        Seq::empty()
    } else {
        let head = if b[0].begin <= a[0].end && a[0].begin <= b[0].end {
            seq![span_inter(a[0], b[0], t)]
        } else {
            Seq::empty()
        };
        if a[0].end > b[0].end {
            head + inter_spec(a, b.drop_first(), t)
        } else {
            head + inter_spec(a.drop_first(), b, t)
        }
    }
}

/// Insert an interval into a begin-sorted list, behind every element whose
/// begin does not exceed its own: the stable position.
pub open spec fn insert_sorted(e: Span, s: Seq<Span>) -> Seq<Span>
    decreases s.len(),
{
    if s.len() == 0 {
        seq![e]
    } else if s.last().begin > e.begin {
        insert_sorted(e, s.drop_last()).push(s.last())
    } else {
        s.push(e)
    }
}

/// Stable sort by `begin`: the elements inserted one by one from the left,
/// each behind its equals.
pub open spec fn sort_spec(s: Seq<Span>) -> Seq<Span>
    decreases s.len(),
{
    if s.len() == 0 {
        Seq::empty()
    } else {
        insert_sorted(s.last(), sort_spec(s.drop_last()))
    }
}

/// The exact union list: the literal left-to-right sweep over a sorted
/// list. An element is merged into the last open run when it overlaps the
/// run or when the run's end plus one equals the element's end; merging
/// widens the run's end; otherwise the element starts a new run in the
/// domain `t`.
pub open spec fn union_sweep(s: Seq<Span>, t: TypeRange) -> Seq<Span>
    decreases s.len(),
{
    if s.len() == 0 {
        Seq::empty()
    } else if s.len() == 1 {
        seq![s[0]]
    } else {
        let prev = union_sweep(s.drop_last(), t);
        let run = prev.last();
        let e = s.last();
        if (run.begin <= e.begin && e.begin <= run.end) || run.end + 1 == e.end {
            let merged_end = if run.end >= e.end {
                run.end
            } else {
                e.end
            };
            prev.update(
                prev.len() - 1,
                Span { begin: run.begin, end: merged_end, range_of: run.range_of },
            )
        } else {
            prev.push(Span { begin: e.begin, end: e.end, range_of: t })
        }
    }
}

/// The points whose membership in the intersection is already decided once
/// the two-pointer sweep has advanced to positions `l` and `r`: points shared
/// by a pair of intervals of which at least one side is behind its pointer.
spec fn inter_seen(a: Seq<Span>, b: Seq<Span>, l: int, r: int, x: int) -> bool {
    exists|i: int, j: int|
        0 <= i < a.len() && 0 <= j < b.len() && (i < l || j < r) && in_span(a[i], x) && in_span(
            b[j],
            x,
        )
}


/// Advancing the right pointer keeps the sweep's coverage account: after
/// emitting the overlap (if any) of the pair at the two pointers, the points
/// decided with the right bound raised by one are exactly those covered.
proof fn lemma_inter_step_right(
    a: Seq<Span>,
    b: Seq<Span>,
    li: int,
    ri: int,
    out0: Seq<Span>,
    out1: Seq<Span>,
    t: TypeRange,
)
    requires
        sorted_by_begin(a),
        0 <= li < a.len(),
        0 <= ri < b.len(),
        a[li].end > b[ri].end,
        (b[ri].begin <= a[li].end && a[li].begin <= b[ri].end) ==> out1 == out0.push(
            span_inter(a[li], b[ri], t),
        ),
        !(b[ri].begin <= a[li].end && a[li].begin <= b[ri].end) ==> out1 == out0,
        forall|x: int| covers(out0, x) <==> inter_seen(a, b, li, ri, x),
    ensures
        forall|x: int| covers(out1, x) <==> inter_seen(a, b, li, ri + 1, x),
{
    let overlap = b[ri].begin <= a[li].end && a[li].begin <= b[ri].end;
    if overlap {
        lemma_covers_snoc(out0, span_inter(a[li], b[ri], t));
    }
    assert forall|x: int| covers(out1, x) <==> inter_seen(a, b, li, ri + 1, x) by {
        if covers(out1, x) {
            if covers(out0, x) {
                let (i, j) = choose|i: int, j: int|
                    0 <= i < a.len() && 0 <= j < b.len() && (i < li || j < ri) && in_span(a[i], x)
                        && in_span(b[j], x);
                assert(in_span(a[i], x) && in_span(b[j], x) && (i < li || j < ri + 1));
            } else {
                assert(in_span(out1.last(), x));
                assert(in_span(a[li], x) && in_span(b[ri], x));
            }
            assert(inter_seen(a, b, li, ri + 1, x));
        }
        if inter_seen(a, b, li, ri + 1, x) {
            let (i, j) = choose|i: int, j: int|
                0 <= i < a.len() && 0 <= j < b.len() && (i < li || j < ri + 1) && in_span(a[i], x)
                    && in_span(b[j], x);
            if i < li || j < ri {
                assert(inter_seen(a, b, li, ri, x));
                assert(covers(out0, x));
            } else {
                // i is at or past the left pointer, j is at the right one
                assert(j == ri && li <= i);
                assert(a[li].begin <= a[i].begin);
                assert(x <= b[ri].end && b[ri].end < a[li].end);
                assert(in_span(a[li], x));
                assert(overlap);
                assert(in_span(out1[out1.len() - 1], x));
            }
            assert(covers(out1, x));
        }
    }
}

/// The mirror image: advancing the left pointer.
proof fn lemma_inter_step_left(
    a: Seq<Span>,
    b: Seq<Span>,
    li: int,
    ri: int,
    out0: Seq<Span>,
    out1: Seq<Span>,
    t: TypeRange,
)
    requires
        sorted_by_begin(b),
        0 <= li < a.len(),
        0 <= ri < b.len(),
        a[li].end <= b[ri].end,
        (b[ri].begin <= a[li].end && a[li].begin <= b[ri].end) ==> out1 == out0.push(
            span_inter(a[li], b[ri], t),
        ),
        !(b[ri].begin <= a[li].end && a[li].begin <= b[ri].end) ==> out1 == out0,
        forall|x: int| covers(out0, x) <==> inter_seen(a, b, li, ri, x),
    ensures
        forall|x: int| covers(out1, x) <==> inter_seen(a, b, li + 1, ri, x),
{
    let overlap = b[ri].begin <= a[li].end && a[li].begin <= b[ri].end;
    if overlap {
        lemma_covers_snoc(out0, span_inter(a[li], b[ri], t));
    }
    assert forall|x: int| covers(out1, x) <==> inter_seen(a, b, li + 1, ri, x) by {
        if covers(out1, x) {
            if covers(out0, x) {
                let (i, j) = choose|i: int, j: int|
                    0 <= i < a.len() && 0 <= j < b.len() && (i < li || j < ri) && in_span(a[i], x)
                        && in_span(b[j], x);
                assert(in_span(a[i], x) && in_span(b[j], x) && (i < li + 1 || j < ri));
            } else {
                assert(in_span(out1.last(), x));
                assert(in_span(a[li], x) && in_span(b[ri], x));
            }
            assert(inter_seen(a, b, li + 1, ri, x));
        }
        if inter_seen(a, b, li + 1, ri, x) {
            let (i, j) = choose|i: int, j: int|
                0 <= i < a.len() && 0 <= j < b.len() && (i < li + 1 || j < ri) && in_span(a[i], x)
                    && in_span(b[j], x);
            if i < li || j < ri {
                assert(inter_seen(a, b, li, ri, x));
                assert(covers(out0, x));
            } else {
                // i is at the left pointer, j at or past the right one
                assert(i == li && ri <= j);
                assert(b[ri].begin <= b[j].begin);
                assert(x <= a[li].end && a[li].end <= b[ri].end);
                assert(in_span(b[ri], x));
                assert(overlap);
                assert(in_span(out1[out1.len() - 1], x));
            }
            assert(covers(out1, x));
        }
    }
}

/// Once one list is exhausted, the decided points are the whole
/// intersection of the two coverages.
proof fn lemma_inter_done(a: Seq<Span>, b: Seq<Span>, l: int, r: int, out: Seq<Span>)
    requires
        0 <= l <= a.len(),
        0 <= r <= b.len(),
        l == a.len() || r == b.len(),
        forall|x: int| covers(out, x) <==> inter_seen(a, b, l, r, x),
    ensures
        forall|x: int| covers(out, x) <==> covers(a, x) && covers(b, x),
{
    assert forall|x: int| covers(out, x) <==> covers(a, x) && covers(b, x) by {
        if covers(out, x) {
            let (i, j) = choose|i: int, j: int|
                0 <= i < a.len() && 0 <= j < b.len() && (i < l || j < r) && in_span(a[i], x)
                    && in_span(b[j], x);
            assert(in_span(a[i], x));
            assert(in_span(b[j], x));
        }
        if covers(a, x) && covers(b, x) {
            let i = choose|i: int| 0 <= i < a.len() && in_span(a[i], x);
            let j = choose|j: int| 0 <= j < b.len() && in_span(b[j], x);
            assert(i < l || j < r);
            assert(inter_seen(a, b, l, r, x));
        }
    }
}

/// One round of the insertion sort: bubble the element at `i` left to its
/// stable position, so that the first `i + 1` elements become the stable
/// sort of the first `i + 1` originals.
#[verifier::rlimit(100)]
fn insert_left(v: &mut Vec<Span>, i: usize, Ghost(orig): Ghost<Seq<Span>>)
    requires
        i < old(v)@.len(),
        orig.len() == old(v)@.len(),
        same_members(orig, old(v)@),
        forall|p: int, q: int| 0 <= p < q < i as int ==> old(v)@[p].begin <= old(v)@[q].begin,
        old(v)@.subrange(0, i as int) == sort_spec(orig.subrange(0, i as int)),
        old(v)@.skip(i as int) == orig.skip(i as int),
    ensures
        final(v)@.len() == old(v)@.len(),
        same_members(orig, final(v)@),
        forall|p: int, q: int|
            0 <= p < q < i as int + 1 ==> final(v)@[p].begin <= final(v)@[q].begin,
        final(v)@.subrange(0, i as int + 1) == sort_spec(orig.subrange(0, i as int + 1)),
        final(v)@.skip(i as int + 1) == orig.skip(i as int + 1),
{
    let ghost sp = v@.subrange(0, i as int);
    let ghost m = orig[i as int];
    proof {
        assert(v@.skip(i as int)[0] == v@[i as int]);
        assert(orig.skip(i as int)[0] == orig[i as int]);
        assert forall|k: int| #![trigger v@.skip(i as int + 1)[k]]
            0 <= k < v@.skip(i as int + 1).len() implies v@.skip(i as int + 1)[k] == orig.skip(
            i as int + 1,
        )[k] by {
            assert(v@.skip(i as int)[k + 1] == orig.skip(i as int)[k + 1]);
        }
        assert(v@.skip(i as int + 1) =~= orig.skip(i as int + 1));
        assert(v@.subrange(i as int + 1, i as int + 1) =~= Seq::<Span>::empty());
        assert(insert_sorted(m, v@.subrange(0, i as int)) + v@.subrange(
            i as int + 1,
            i as int + 1,
        ) =~= insert_sorted(m, sp));
    }
    let mut j: usize = i;
    while j > 0 && v[j - 1].begin > v[j].begin
        invariant
            j <= i,
            i < v@.len(),
            v@.len() == old(v)@.len(),
            same_members(orig, v@),
            v@[j as int] == m,
            v@.skip(i as int + 1) == orig.skip(i as int + 1),
            insert_sorted(m, v@.subrange(0, j as int)) + v@.subrange(j as int + 1, i as int + 1)
                == insert_sorted(m, sp),
            forall|p: int, q: int|
                0 <= p < q <= i as int && q != j as int ==> v@[p].begin <= v@[q].begin,
        decreases j,
    {
        let ghost vpre = v@;
        let ghost jj = j as int;
        let lo = v[j - 1];
        let hi = v[j];
        v[j - 1] = hi;
        v[j] = lo;
        proof {
            assert(v@ =~= vpre.update(jj - 1, vpre[jj]).update(jj, vpre[jj - 1]));
            lemma_swap_same_members(orig, vpre, jj - 1, jj);
            assert(v@.skip(i as int + 1) =~= vpre.skip(i as int + 1));
            assert(v@.subrange(0, jj - 1) =~= vpre.subrange(0, jj - 1));
            assert(v@.subrange(jj, i as int + 1) =~= seq![vpre[jj - 1]] + vpre.subrange(
                jj + 1,
                i as int + 1,
            ));
            assert(vpre.subrange(0, jj).drop_last() =~= vpre.subrange(0, jj - 1));
            assert(vpre.subrange(0, jj).last() == vpre[jj - 1]);
            assert(vpre[jj - 1].begin > m.begin);
            assert(insert_sorted(m, vpre.subrange(0, jj)) == insert_sorted(
                m,
                vpre.subrange(0, jj - 1),
            ).push(vpre[jj - 1]));
            assert(insert_sorted(m, v@.subrange(0, jj - 1)) + v@.subrange(jj, i as int + 1)
                =~= insert_sorted(m, vpre.subrange(0, jj)) + vpre.subrange(jj + 1, i as int + 1));
            assert forall|p: int, q: int|
                0 <= p < q <= i as int && q != jj - 1 implies v@[p].begin <= v@[q].begin by {
                if q == jj {
                    if p < jj - 1 {
                        assert(vpre[p].begin <= vpre[jj - 1].begin);
                    }
                } else if q > jj {
                    if p == jj - 1 {
                        assert(vpre[jj].begin <= vpre[q].begin);
                    } else if p == jj {
                        assert(vpre[jj - 1].begin <= vpre[q].begin);
                    } else {
                        assert(vpre[p].begin <= vpre[q].begin);
                    }
                } else {
                    assert(vpre[p].begin <= vpre[q].begin);
                }
            }
        }
        j -= 1;
    }
    proof {
        let jj = j as int;
        assert forall|p: int, q: int|
            0 <= p < q < i as int + 1 implies v@[p].begin <= v@[q].begin by {
            if q == jj {
                if p < jj - 1 {
                    assert(v@[p].begin <= v@[jj - 1].begin);
                }
            }
        }
        // glue the inserted element back in: the prefix up to and including
        // it is exactly the spec insertion
        if jj > 0 {
            assert(v@.subrange(0, jj).last() == v@[jj - 1]);
        }
        assert(insert_sorted(m, v@.subrange(0, jj)) =~= v@.subrange(0, jj).push(m));
        assert(v@.subrange(0, jj).push(m) =~= v@.subrange(0, jj + 1));
        assert(v@.subrange(0, jj + 1) + v@.subrange(jj + 1, i as int + 1) =~= v@.subrange(
            0,
            i as int + 1,
        ));
        assert(v@.subrange(0, i as int + 1) == insert_sorted(m, sp));
        assert(orig.subrange(0, i as int + 1).drop_last() =~= orig.subrange(0, i as int));
        assert(orig.subrange(0, i as int + 1).last() == orig[i as int]);
        assert(sort_spec(orig.subrange(0, i as int + 1)) == insert_sorted(
            m,
            sort_spec(orig.subrange(0, i as int)),
        ));
    }
}

/// Insertion sort by `begin`: stable, and the result holds exactly the
/// original elements.
#[verifier::loop_isolation(false)]
fn sort_by_begin_vec(v: &mut Vec<Span>)
    ensures
        final(v)@.len() == old(v)@.len(),
        sorted_by_begin(final(v)@),
        same_members(old(v)@, final(v)@),
        final(v)@ == sort_spec(old(v)@),
{
    let ghost orig = v@;
    let n = v.len();
    if n <= 1 {
        proof {
            if n == 0 {
                assert(sort_spec(orig) =~= orig);
            } else {
                assert(orig.drop_last() =~= Seq::<Span>::empty());
                assert(sort_spec(Seq::<Span>::empty()) == Seq::<Span>::empty());
                assert(insert_sorted(orig.last(), Seq::<Span>::empty()) == seq![orig.last()]);
                assert(orig.last() == orig[0]);
                assert(sort_spec(orig) =~= orig);
            }
        }
        return ;
    }
    proof {
        assert(orig.subrange(0, 1).drop_last() =~= Seq::<Span>::empty());
        assert(orig.subrange(0, 1).last() == orig[0]);
        assert(sort_spec(Seq::<Span>::empty()) == Seq::<Span>::empty());
        assert(insert_sorted(orig[0], Seq::<Span>::empty()) == seq![orig[0]]);
        assert(v@.subrange(0, 1) =~= seq![orig[0]]);
        assert(v@.subrange(0, 1) =~= sort_spec(orig.subrange(0, 1)));
        assert(v@.skip(1) =~= orig.skip(1));
    }
    let mut i: usize = 1;
    while i < n
        invariant
            1 <= i <= n,
            n == v@.len(),
            same_members(orig, v@),
            v@.subrange(0, i as int) == sort_spec(orig.subrange(0, i as int)),
            v@.skip(i as int) == orig.skip(i as int),
            forall|p: int, q: int| 0 <= p < q < i as int ==> v@[p].begin <= v@[q].begin,
        decreases n - i,
    {
        insert_left(v, i, Ghost(orig));
        i += 1;
    }
    proof {
        assert(v@.subrange(0, n as int) =~= v@);
        assert(orig.subrange(0, n as int) =~= orig);
    }
}

impl Op {
    /// The tag the set belongs to: the cached one, else the first element's.
    pub open spec fn spec_tag(&self) -> TypeRange {
        match self.range_of {
            Some(t) => t,
            None => self.ranges@[0].range_of,
        }
    }

    /// The tag can be read: it is cached, or there is a first element.
    pub open spec fn tag_known(&self) -> bool {
        self.range_of is Some || self.ranges@.len() > 0
    }

    /// The tag can be read and every element is a well-formed interval of
    /// this set's own domain.
    pub open spec fn wf(&self) -> bool {
        self.tag_known() && all_wf(self.ranges@, self.spec_tag())
    }

    /// The cached domain tag, or the first element's where none is cached.
    fn get_range_of(&self) -> (r: TypeRange)
        requires
            self.tag_known(),
        ensures
            r == self.spec_tag(),
    {
        match &self.range_of {
            Some(t) => *t,
            None => self.ranges[0].range_of,
        }
    }

    /// Complement: the points of `[0, max]` that this set does not cover,
    /// as a separated, sorted list of gaps.
    ///
    /// The operand must be nonempty, sorted in both bounds, and well formed;
    /// overlapping elements are fine as long as both bounds are sorted.
    #[verifier::loop_isolation(false)]
    #[verifier::rlimit(100)]
    pub fn not(&self) -> (r: Op)
        requires
            self.wf(),
            self.ranges@.len() > 0,
            sorted_by_begin(self.ranges@),
            ends_sorted(self.ranges@),
        ensures
            r.range_of == Some(self.spec_tag()),
            all_wf(r.ranges@, self.spec_tag()),
            separated(r.ranges@),
            r.ranges@ == not_spec(self.ranges@, self.spec_tag()),
            forall|x: int|
                0 <= x <= domain_max(self.spec_tag())
                    ==> (covers(r.ranges@, x) <==> !covers(self.ranges@, x)),
    {
        let ghost rs = self.ranges@;
        let tag = self.get_range_of();
        let mut out: Vec<Span> = Vec::new();

        let first_begin = self.ranges[0].begin;
        if first_begin != 0 {
            let lead = Span { begin: 0, end: first_begin - 1, range_of: tag };
            out.push(lead);
        }
        let ghost lead0 = out@;
        assert forall|x: int| covers(out@, x) implies 0 <= x < rs[0].begin && !covers(rs, x) by {
            if covers(rs, x) {
                let k = choose|k: int| 0 <= k < rs.len() && in_span(rs[k], x);
                assert(rs[0].begin <= rs[k].begin);
            }
        }
        assert forall|x: int| 0 <= x < rs[0].begin && !covers(rs, x) implies covers(out@, x) by {
            assert(in_span(out@[0], x));
        }

        proof {
            assert(inner_gaps(rs.subrange(0, 1), tag) =~= Seq::<Span>::empty());
            assert(out@ =~= lead0 + inner_gaps(rs.subrange(0, 1), tag));
        }
        let n = self.ranges.len();
        let mut i: usize = 0;
        while i + 1 < n
            invariant
                i + 1 <= n,
                all_wf(out@, tag),
                separated(out@),
                out@ == lead0 + inner_gaps(rs.subrange(0, i as int + 1), tag),
                out@.len() > 0 ==> out@.last().end < rs[i as int].begin,
                forall|x: int|
                    covers(out@, x) <==> (0 <= x < rs[i as int].begin && !covers(rs, x)),
            decreases n - i,
        {
            let cur_end = self.ranges[i].end;
            let next_begin = self.ranges[i + 1].begin;
            let ghost out0 = out@;
            if next_begin > cur_end + 1 {
                let gap = Span { begin: cur_end + 1, end: next_begin - 1, range_of: tag };
                out.push(gap);
                proof {
                    lemma_covers_snoc(out0, gap);
                }
            }
            proof {
                let ii = i as int;
                let pre = rs.subrange(0, ii + 1);
                let now = rs.subrange(0, ii + 2);
                assert(now.drop_last() =~= pre);
                assert(now[now.len() - 2] == rs[ii] && now.last() == rs[ii + 1]);
                if next_begin > cur_end + 1 {
                    assert(out@ =~= lead0 + inner_gaps(now, tag));
                } else {
                    assert(gap_between(rs[ii], rs[ii + 1], tag) =~= Seq::<Span>::empty());
                    assert(out@ =~= lead0 + inner_gaps(now, tag));
                }
                assert forall|x: int|
                    covers(out@, x) implies (0 <= x < rs[ii + 1].begin && !covers(rs, x)) by {
                    if covers(out0, x) {
                        assert(rs[ii].begin <= rs[ii + 1].begin);
                    } else {
                        // the point lies in the freshly pushed gap
                        assert(cur_end < x < next_begin);
                        if covers(rs, x) {
                            let k = choose|k: int| 0 <= k < rs.len() && in_span(rs[k], x);
                            if k <= ii {
                                assert(rs[k].end <= rs[ii].end);
                            } else {
                                assert(rs[ii + 1].begin <= rs[k].begin);
                            }
                        }
                    }
                }
                assert forall|x: int|
                    (0 <= x < rs[ii + 1].begin && !covers(rs, x)) implies covers(out@, x) by {
                    if x < rs[ii].begin {
                        assert(covers(out0, x));
                    } else {
                        // between this element's end and the next begin
                        assert(!in_span(rs[ii], x));
                        assert(x > rs[ii].end);
                        assert(next_begin > cur_end + 1);
                        assert(in_span(out@.last(), x));
                    }
                }
            }
            i += 1;
        }

        assert(i == n - 1);
        let last_end = self.ranges[n - 1].end;
        let max_v = self.ranges[n - 1].max();
        let ghost out1 = out@;
        if last_end != max_v {
            let tail = Span { begin: last_end + 1, end: max_v, range_of: tag };
            out.push(tail);
            proof {
                lemma_covers_snoc(out1, tail);
            }
        }
        proof {
            let nn = n as int;
            assert(rs.subrange(0, nn) =~= rs);
            assert(lead0 =~= (if rs[0].begin != 0 {
                seq![Span { begin: 0, end: (rs[0].begin - 1) as u64, range_of: tag }]
            } else {
                Seq::<Span>::empty()
            }));
            assert(out@ =~= not_spec(rs, tag));
            assert forall|x: int|
                0 <= x <= domain_max(tag) implies (covers(out@, x) <==> !covers(rs, x)) by {
                if covers(out@, x) {
                    if covers(out1, x) {
                    } else {
                        // the point lies in the trailing gap
                        assert(last_end < x);
                        if covers(rs, x) {
                            let k = choose|k: int| 0 <= k < rs.len() && in_span(rs[k], x);
                            assert(rs[k].end <= rs[nn - 1].end);
                        }
                    }
                } else {
                    if !covers(rs, x) {
                        if x < rs[nn - 1].begin {
                            assert(covers(out1, x));
                        } else {
                            assert(!in_span(rs[nn - 1], x));
                            assert(x > last_end);
                            assert(in_span(out@.last(), x));
                        }
                        assert(covers(out@, x));
                    }
                }
            }
        }
        Op { ranges: out, range_of: Some(tag) }
    }

    /// Union: concatenate, sort by `begin`, then sweep, merging an element
    /// into the open run when it overlaps the run or when the run's end plus
    /// one equals the element's end (the literal merge rule of this algebra;
    /// on sorted well-formed input the second test only fires for the single
    /// point just after the run, so the result covers exactly the union).
    ///
    /// The operands need not be sorted; together they must be nonempty.
    #[verifier::loop_isolation(false)]
    pub fn bitor(&self, rhs: &Op) -> (r: Op)
        requires
            self.tag_known(),
            all_wf(self.ranges@, self.spec_tag()),
            all_wf(rhs.ranges@, self.spec_tag()),
            self.ranges@.len() + rhs.ranges@.len() > 0,
        ensures
            r.range_of == Some(self.spec_tag()),
            all_wf(r.ranges@, self.spec_tag()),
            sorted_by_begin(r.ranges@),
            disjoint(r.ranges@),
            r.ranges@.len() > 0,
            r.ranges@ == union_sweep(sort_spec(self.ranges@ + rhs.ranges@), self.spec_tag()),
            forall|x: int|
                covers(r.ranges@, x) <==> covers(self.ranges@, x) || covers(rhs.ranges@, x),
    {
        let ghost a = self.ranges@;
        let ghost b = rhs.ranges@;
        let tag = self.get_range_of();

        let mut intervals: Vec<Span> = Vec::new();
        let mut p: usize = 0;
        while p < self.ranges.len()
            invariant
                p <= a.len(),
                intervals@ == a.subrange(0, p as int),
            decreases a.len() - p,
        {
            intervals.push(self.ranges[p]);
            proof {
                assert(intervals@ =~= a.subrange(0, p as int + 1));
            }
            p += 1;
        }
        let mut q: usize = 0;
        while q < rhs.ranges.len()
            invariant
                q <= b.len(),
                intervals@ == a.subrange(0, a.len() as int) + b.subrange(0, q as int),
            decreases b.len() - q,
        {
            intervals.push(rhs.ranges[q]);
            proof {
                assert(intervals@ =~= a.subrange(0, a.len() as int) + b.subrange(
                    0,
                    q as int + 1,
                ));
            }
            q += 1;
        }
        proof {
            assert(a.subrange(0, a.len() as int) =~= a);
            assert(b.subrange(0, b.len() as int) =~= b);
            assert(intervals@ =~= a + b);
            lemma_covers_concat(a, b);
            assert forall|k: int| 0 <= k < (a + b).len() implies span_wf(#[trigger] (a + b)[k])
                && (a + b)[k].range_of == tag by {
                if k < a.len() {
                    assert((a + b)[k] == a[k]);
                } else {
                    assert((a + b)[k] == b[k - a.len()]);
                }
            }
        }

        sort_by_begin_vec(&mut intervals);
        proof {
            lemma_same_members_cover(a + b, intervals@);
            lemma_same_members_wf(a + b, intervals@, tag);
        }
        let ghost comb = intervals@;
        proof {
            assert(comb == sort_spec(a + b));
        }

        let n = intervals.len();
        let mut out: Vec<Span> = Vec::new();
        out.push(intervals[0]);
        proof {
            assert(out@ =~= comb.subrange(0, 1));
            assert(comb.subrange(0, 1)[0] == comb[0]);
            assert(out@ =~= union_sweep(comb.subrange(0, 1), tag));
        }
        let mut k: usize = 1;
        while k < n
            invariant
                1 <= k <= n,
                n == comb.len(),
                intervals@ == comb,
                out@.len() > 0,
                all_wf(out@, tag),
                sorted_by_begin(out@),
                disjoint(out@),
                out@.last().begin <= comb[k - 1].begin,
                out@ == union_sweep(comb.subrange(0, k as int), tag),
                forall|x: int| covers(out@, x) <==> covers(comb.subrange(0, k as int), x),
            decreases n - k,
        {
            let ghost kk = k as int;
            let cur = intervals[k];
            let li = out.len() - 1;
            let last = out[li];
            let ghost out0 = out@;
            proof {
                assert(comb.subrange(0, kk + 1) =~= comb.subrange(0, kk).push(comb[kk]));
                lemma_covers_snoc(comb.subrange(0, kk), comb[kk]);
                assert(last.begin <= cur.begin);
                assert(comb.subrange(0, kk + 1).drop_last() =~= comb.subrange(0, kk));
                assert(comb.subrange(0, kk + 1).last() == comb[kk]);
                assert(comb.subrange(0, kk + 1).len() == kk + 1);
            }
            if (last.begin <= cur.begin && cur.begin <= last.end) || last.end + 1 == cur.end {
                let new_end = if last.end >= cur.end {
                    last.end
                } else {
                    cur.end
                };
                let merged = Span { begin: last.begin, end: new_end, range_of: last.range_of };
                out[li] = merged;
                proof {
                    assert(out@ =~= out0.update(li as int, merged));
                    assert(out@.drop_last() =~= out0.drop_last());
                    lemma_covers_last(out0);
                    lemma_covers_last(out@);
                    assert forall|x: int|
                        in_span(merged, x) <==> in_span(out0.last(), x) || in_span(cur, x) by {
                        if !(last.begin <= cur.begin && cur.begin <= last.end) {
                            // the point-adjacency case: the element is the
                            // single point just past the run
                            assert(cur.begin > last.end);
                            assert(cur.begin == cur.end);
                        }
                    }
                    assert forall|x: int|
                        covers(out@, x) <==> covers(comb.subrange(0, kk + 1), x) by {
                        assert(covers(out@, x) <==> covers(out@.drop_last(), x) || in_span(
                            merged,
                            x,
                        ));
                        assert(covers(out0, x) <==> covers(out0.drop_last(), x) || in_span(
                            out0.last(),
                            x,
                        ));
                        assert(covers(comb.subrange(0, kk + 1), x) <==> covers(
                            comb.subrange(0, kk),
                            x,
                        ) || in_span(comb[kk], x));
                    }
                    assert(union_sweep(comb.subrange(0, kk + 1), tag) == out0.update(
                        li as int,
                        merged,
                    ));
                    assert(out@ == union_sweep(comb.subrange(0, kk + 1), tag));
                }
            } else {
                let nspan = build_from(tag, cur.begin, cur.end);
                out.push(nspan);
                proof {
                    assert(nspan == cur);
                    assert(cur.begin > last.end);
                    lemma_covers_snoc(out0, nspan);
                    assert forall|qq: int| 0 <= qq < out0.len() implies out0[qq].end
                        < nspan.begin by {
                        if qq < out0.len() - 1 {
                            assert(out0[qq].end < out0.last().begin);
                        }
                    }
                    assert forall|x: int|
                        covers(out@, x) <==> covers(comb.subrange(0, kk + 1), x) by {
                        assert(covers(out@, x) <==> covers(out0, x) || in_span(nspan, x));
                        assert(covers(comb.subrange(0, kk + 1), x) <==> covers(
                            comb.subrange(0, kk),
                            x,
                        ) || in_span(comb[kk], x));
                    }
                    assert(union_sweep(comb.subrange(0, kk + 1), tag) == out0.push(nspan));
                    assert(out@ == union_sweep(comb.subrange(0, kk + 1), tag));
                }
            }
            k += 1;
        }
        proof {
            assert(comb.subrange(0, n as int) =~= comb);
        }
        Op { ranges: out, range_of: Some(tag) }
    }

    /// Intersection: a two-pointer sweep over the two sorted operands. Each
    /// overlapping pair contributes its overlap; the side whose current
    /// interval ends first is advanced.
    #[verifier::loop_isolation(false)]
    #[verifier::rlimit(100)]
    pub fn bitand(&self, rhs: &Op) -> (r: Op)
        requires
            self.tag_known(),
            all_wf(self.ranges@, self.spec_tag()),
            all_wf(rhs.ranges@, self.spec_tag()),
            sorted_by_begin(self.ranges@),
            sorted_by_begin(rhs.ranges@),
        ensures
            r.range_of == Some(self.spec_tag()),
            all_wf(r.ranges@, self.spec_tag()),
            sorted_by_begin(r.ranges@),
            r.ranges@ == inter_spec(self.ranges@, rhs.ranges@, self.spec_tag()),
            forall|x: int|
                covers(r.ranges@, x) <==> covers(self.ranges@, x) && covers(rhs.ranges@, x),
    {
        let ghost a = self.ranges@;
        let ghost b = rhs.ranges@;
        let tag = self.get_range_of();
        let mut out: Vec<Span> = Vec::new();
        proof {
            assert(a.skip(0) =~= a);
            assert(b.skip(0) =~= b);
            assert(out@ + inter_spec(a, b, tag) =~= inter_spec(a, b, tag));
        }
        let mut l_cnt: usize = 0;
        let mut r_cnt: usize = 0;
        while l_cnt < self.ranges.len() && r_cnt < rhs.ranges.len()
            invariant
                l_cnt <= a.len(),
                r_cnt <= b.len(),
                all_wf(out@, tag),
                sorted_by_begin(out@),
                inter_spec(a, b, tag) == out@ + inter_spec(
                    a.skip(l_cnt as int),
                    b.skip(r_cnt as int),
                    tag,
                ),
                out@.len() > 0 && l_cnt < a.len() && r_cnt < b.len() ==> (out@.last().begin
                    <= a[l_cnt as int].begin || out@.last().begin <= b[r_cnt as int].begin),
                forall|x: int|
                    covers(out@, x) <==> inter_seen(a, b, l_cnt as int, r_cnt as int, x),
            decreases a.len() - l_cnt + b.len() - r_cnt,
        {
            let ghost li = l_cnt as int;
            let ghost ri = r_cnt as int;
            let sl = self.ranges[l_cnt];
            let sr = rhs.ranges[r_cnt];
            let ghost out0 = out@;
            let overlap = sr.begin <= sl.end && sl.begin <= sr.end;
            if overlap {
                let left = if sl.begin >= sr.begin {
                    sl.begin
                } else {
                    sr.begin
                };
                let right = if sl.end <= sr.end {
                    sl.end
                } else {
                    sr.end
                };
                out.push(build_from(tag, left, right));
                proof {
                    lemma_covers_snoc(out0, Span { begin: left, end: right, range_of: tag });
                    assert forall|qq: int| 0 <= qq < out0.len() implies out0[qq].begin <= left by {
                        assert(out0[qq].begin <= out0[out0.len() - 1].begin);
                    }
                }
            }
            if sl.end > sr.end {
                proof {
                    let suf_a = a.skip(li);
                    let suf_b = b.skip(ri);
                    assert(suf_a[0] == a[li]);
                    assert(suf_b[0] == b[ri]);
                    assert(suf_b.drop_first() =~= b.skip(ri + 1));
                    if overlap {
                        assert(out@ =~= out0.push(span_inter(a[li], b[ri], tag)));
                    }
                    assert(out@ + inter_spec(suf_a, b.skip(ri + 1), tag) =~= out0 + inter_spec(
                        suf_a,
                        suf_b,
                        tag,
                    ));
                    lemma_inter_step_right(a, b, li, ri, out0, out@, tag);
                }
                r_cnt += 1;
            } else {
                proof {
                    let suf_a = a.skip(li);
                    let suf_b = b.skip(ri);
                    assert(suf_a[0] == a[li]);
                    assert(suf_b[0] == b[ri]);
                    assert(suf_a.drop_first() =~= a.skip(li + 1));
                    if overlap {
                        assert(out@ =~= out0.push(span_inter(a[li], b[ri], tag)));
                    }
                    assert(out@ + inter_spec(a.skip(li + 1), suf_b, tag) =~= out0 + inter_spec(
                        suf_a,
                        suf_b,
                        tag,
                    ));
                    lemma_inter_step_left(a, b, li, ri, out0, out@, tag);
                }
                l_cnt += 1;
            }
        }
        proof {
            if l_cnt == a.len() {
                assert(a.skip(l_cnt as int) =~= Seq::<Span>::empty());
            } else {
                assert(b.skip(r_cnt as int) =~= Seq::<Span>::empty());
            }
            assert(out@ + Seq::<Span>::empty() =~= out@);
            assert(out@ == inter_spec(a, b, tag));
            lemma_inter_done(a, b, l_cnt as int, r_cnt as int, out@);
        }
        Op { ranges: out, range_of: Some(tag) }
    }

    /// Difference: the points of this set that `rhs` does not cover,
    /// computed as the intersection with the complement of `rhs`.
    pub fn sub(&self, rhs: &Op) -> (r: Op)
        requires
            self.tag_known(),
            all_wf(self.ranges@, self.spec_tag()),
            sorted_by_begin(self.ranges@),
            rhs.tag_known(),
            rhs.spec_tag() == self.spec_tag(),
            rhs.ranges@.len() > 0,
            all_wf(rhs.ranges@, self.spec_tag()),
            sorted_by_begin(rhs.ranges@),
            ends_sorted(rhs.ranges@),
        ensures
            r.range_of == Some(self.spec_tag()),
            all_wf(r.ranges@, self.spec_tag()),
            sorted_by_begin(r.ranges@),
            r.ranges@ == inter_spec(
                self.ranges@,
                not_spec(rhs.ranges@, self.spec_tag()),
                self.spec_tag(),
            ),
            forall|x: int|
                0 <= x <= domain_max(self.spec_tag()) ==> (covers(r.ranges@, x) <==> covers(
                    self.ranges@,
                    x,
                ) && !covers(rhs.ranges@, x)),
            forall|x: int| covers(r.ranges@, x) ==> 0 <= x <= domain_max(self.spec_tag()),
    {
        let flip = rhs.not();
        proof {
            lemma_separated_props(flip.ranges@, self.spec_tag());
        }
        let r = self.bitand(&flip);
        proof {
            lemma_covers_in_domain(r.ranges@, self.spec_tag());
        }
        r
    }

    /// Symmetric difference: the points covered by exactly one operand,
    /// computed as the union of the two one-sided differences. The operands
    /// must differ somewhere: otherwise both differences are empty and the
    /// union has no first element to seed its sweep with.
    pub fn bitxor(&self, rhs: &Op) -> (r: Op)
        requires
            self.tag_known(),
            rhs.tag_known(),
            rhs.spec_tag() == self.spec_tag(),
            self.ranges@.len() > 0,
            rhs.ranges@.len() > 0,
            all_wf(self.ranges@, self.spec_tag()),
            all_wf(rhs.ranges@, self.spec_tag()),
            sorted_by_begin(self.ranges@),
            ends_sorted(self.ranges@),
            sorted_by_begin(rhs.ranges@),
            ends_sorted(rhs.ranges@),
            exists|x: int|
                0 <= x <= domain_max(self.spec_tag()) && covers(self.ranges@, x) != covers(
                    rhs.ranges@,
                    x,
                ),
        ensures
            r.range_of == Some(self.spec_tag()),
            all_wf(r.ranges@, self.spec_tag()),
            sorted_by_begin(r.ranges@),
            disjoint(r.ranges@),
            r.ranges@.len() > 0,
            r.ranges@ == union_sweep(
                sort_spec(
                    inter_spec(
                        self.ranges@,
                        not_spec(rhs.ranges@, self.spec_tag()),
                        self.spec_tag(),
                    ) + inter_spec(
                        rhs.ranges@,
                        not_spec(self.ranges@, self.spec_tag()),
                        self.spec_tag(),
                    ),
                ),
                self.spec_tag(),
            ),
            forall|x: int|
                0 <= x <= domain_max(self.spec_tag()) ==> (covers(r.ranges@, x) <==> (covers(
                    self.ranges@,
                    x,
                ) != covers(rhs.ranges@, x))),
    {
        let d1 = self.sub(rhs);
        let d2 = rhs.sub(self);
        proof {
            let w = choose|x: int|
                0 <= x <= domain_max(self.spec_tag()) && covers(self.ranges@, x) != covers(
                    rhs.ranges@,
                    x,
                );
            if covers(self.ranges@, w) {
                assert(covers(d1.ranges@, w));
                let i = choose|i: int| 0 <= i < d1.ranges@.len() && in_span(d1.ranges@[i], w);
                assert(d1.ranges@.len() > 0);
            } else {
                assert(covers(d2.ranges@, w));
                let i = choose|i: int| 0 <= i < d2.ranges@.len() && in_span(d2.ranges@[i], w);
                assert(d2.ranges@.len() > 0);
            }
        }
        d1.bitor(&d2)
    }

    /// The set as a bracketed, comma-separated list of `(begin, end)` pairs;
    /// diagnostic output, not a durable format.
    #[verifier::loop_isolation(false)]
    pub fn render(&self) -> (r: String)
        ensures
            r@ == "["@ + rendered_list(self.ranges@) + "]"@,
    {
        let mut s = String::from_str("[");
        let n = self.ranges.len();
        let mut i: usize = 0;
        while i < n
            invariant
                i <= n,
                n == self.ranges@.len(),
                s@ == "["@ + rendered_list(self.ranges@.subrange(0, i as int)),
            decreases n - i,
        {
            if i > 0 {
                s.append(", ");
            }
            let piece = render_pair(self.ranges[i].begin, self.ranges[i].end);
            s.append(piece.as_str());
            proof {
                let pre = self.ranges@.subrange(0, i as int);
                let now = self.ranges@.subrange(0, i as int + 1);
                assert(now.drop_last() =~= pre);
                assert(now.last() == self.ranges@[i as int]);
                assert(s@ =~= "["@ + rendered_list(now));
            }
            i += 1;
        }
        s.append("]");
        proof {
            assert(self.ranges@.subrange(0, n as int) =~= self.ranges@);
            assert(s@ =~= "["@ + rendered_list(self.ranges@) + "]"@);
        }
        s
    }
}

} // verus!
