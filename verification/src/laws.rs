//! General laws of the algebra, stated over the same spec vocabulary the
//! operators' contracts use and proved once for every domain.

use vstd::prelude::*;

use crate::logic::{insert_sorted, inter_spec, sort_spec, span_inter, union_sweep};
use crate::mask::{collapse_spec, ports_row, rows, socket_span};
use crate::types::{
    all_wf, covers, domain_max, in_span, lemma_covers_in_domain, lemma_separated_props, separated,
    span_wf, Span, TypeRange, IP, Port,
};

verus! {

/// The bare bounds of a list, the domain tags stripped.
pub open spec fn bounds_of(s: Seq<Span>) -> Seq<(u64, u64)> {
    Seq::new(s.len(), |k: int| (s[k].begin, s[k].end))
}


/// Equal bounds at every index, unpacked from equality of the bounds lists.
proof fn lemma_bounds_index(s1: Seq<Span>, s2: Seq<Span>)
    requires
        bounds_of(s1) == bounds_of(s2),
    ensures
        s1.len() == s2.len(),
        forall|k: int|
            0 <= k < s1.len() ==> s1[k].begin == s2[k].begin && s1[k].end == s2[k].end,
{
    assert(bounds_of(s1).len() == s1.len() && bounds_of(s2).len() == s2.len());
    assert forall|k: int| 0 <= k < s1.len() implies s1[k].begin == s2[k].begin && s1[k].end
        == s2[k].end by {
        assert(bounds_of(s1)[k] == bounds_of(s2)[k]);
    }
}

/// Bounds equality is pointwise, packed back into the bounds lists.
proof fn lemma_bounds_intro(s1: Seq<Span>, s2: Seq<Span>)
    requires
        s1.len() == s2.len(),
        forall|k: int|
            0 <= k < s1.len() ==> s1[k].begin == s2[k].begin && s1[k].end == s2[k].end,
    ensures
        bounds_of(s1) == bounds_of(s2),
{
    assert(bounds_of(s1) =~= bounds_of(s2));
}

/// Concatenation respects bounds equality.
proof fn lemma_bounds_concat(x1: Seq<Span>, y1: Seq<Span>, x2: Seq<Span>, y2: Seq<Span>)
    requires
        bounds_of(x1) == bounds_of(x2),
        bounds_of(y1) == bounds_of(y2),
    ensures
        bounds_of(x1 + y1) == bounds_of(x2 + y2),
{
    lemma_bounds_index(x1, x2);
    lemma_bounds_index(y1, y2);
    assert forall|k: int| 0 <= k < (x1 + y1).len() implies (x1 + y1)[k].begin
        == (x2 + y2)[k].begin && (x1 + y1)[k].end == (x2 + y2)[k].end by {
        if k < x1.len() {
            assert((x1 + y1)[k] == x1[k] && (x2 + y2)[k] == x2[k]);
        } else {
            assert((x1 + y1)[k] == y1[k - x1.len()] && (x2 + y2)[k] == y2[k - x1.len()]);
        }
    }
    lemma_bounds_intro(x1 + y1, x2 + y2);
}

/// Dropping the first element respects bounds equality.
proof fn lemma_bounds_drop_first(s1: Seq<Span>, s2: Seq<Span>)
    requires
        s1.len() > 0,
        bounds_of(s1) == bounds_of(s2),
    ensures
        bounds_of(s1.drop_first()) == bounds_of(s2.drop_first()),
{
    lemma_bounds_index(s1, s2);
    assert forall|k: int| 0 <= k < s1.drop_first().len() implies s1.drop_first()[k].begin
        == s2.drop_first()[k].begin && s1.drop_first()[k].end == s2.drop_first()[k].end by {
        assert(s1.drop_first()[k] == s1[k + 1] && s2.drop_first()[k] == s2[k + 1]);
    }
    lemma_bounds_intro(s1.drop_first(), s2.drop_first());
}

/// Dropping the last element respects bounds equality.
proof fn lemma_bounds_drop_last(s1: Seq<Span>, s2: Seq<Span>)
    requires
        s1.len() > 0,
        bounds_of(s1) == bounds_of(s2),
    ensures
        bounds_of(s1.drop_last()) == bounds_of(s2.drop_last()),
{
    lemma_bounds_index(s1, s2);
    assert forall|k: int| 0 <= k < s1.drop_last().len() implies s1.drop_last()[k].begin
        == s2.drop_last()[k].begin && s1.drop_last()[k].end == s2.drop_last()[k].end by {
        assert(s1.drop_last()[k] == s1[k] && s2.drop_last()[k] == s2[k]);
    }
    lemma_bounds_intro(s1.drop_last(), s2.drop_last());
}

/// A sweep over a nonempty list yields a nonempty list.
proof fn lemma_union_sweep_nonempty(s: Seq<Span>, t: TypeRange)
    requires
        s.len() > 0,
    ensures
        union_sweep(s, t).len() > 0,
    decreases s.len(),
{
    if s.len() > 1 {
        lemma_union_sweep_nonempty(s.drop_last(), t);
    }
}

/// Stable insertion depends on the bounds alone.
proof fn lemma_insert_sorted_bounds(e1: Span, s1: Seq<Span>, e2: Span, s2: Seq<Span>)
    requires
        e1.begin == e2.begin,
        e1.end == e2.end,
        bounds_of(s1) == bounds_of(s2),
    ensures
        bounds_of(insert_sorted(e1, s1)) == bounds_of(insert_sorted(e2, s2)),
    decreases s1.len(),
{
    lemma_bounds_index(s1, s2);
    if s1.len() == 0 {
        assert(bounds_of(seq![e1]) =~= bounds_of(seq![e2]));
    } else if s1.last().begin > e1.begin {
        assert(s1.last().begin == s2.last().begin && s1.last().end == s2.last().end);
        lemma_bounds_drop_last(s1, s2);
        lemma_insert_sorted_bounds(e1, s1.drop_last(), e2, s2.drop_last());
        assert(bounds_of(seq![s1.last()]) =~= bounds_of(seq![s2.last()]));
        lemma_bounds_concat(
            insert_sorted(e1, s1.drop_last()),
            seq![s1.last()],
            insert_sorted(e2, s2.drop_last()),
            seq![s2.last()],
        );
        assert(insert_sorted(e1, s1.drop_last()).push(s1.last()) =~= insert_sorted(
            e1,
            s1.drop_last(),
        ) + seq![s1.last()]);
        assert(insert_sorted(e2, s2.drop_last()).push(s2.last()) =~= insert_sorted(
            e2,
            s2.drop_last(),
        ) + seq![s2.last()]);
    } else {
        assert(bounds_of(seq![e1]) =~= bounds_of(seq![e2]));
        lemma_bounds_concat(s1, seq![e1], s2, seq![e2]);
        assert(s1.push(e1) =~= s1 + seq![e1]);
        assert(s2.push(e2) =~= s2 + seq![e2]);
    }
}

/// The stable sort depends on the bounds alone.
proof fn lemma_sort_spec_bounds(s1: Seq<Span>, s2: Seq<Span>)
    requires
        bounds_of(s1) == bounds_of(s2),
    ensures
        bounds_of(sort_spec(s1)) == bounds_of(sort_spec(s2)),
    decreases s1.len(),
{
    lemma_bounds_index(s1, s2);
    if s1.len() == 0 {
        assert(bounds_of(sort_spec(s1)) =~= bounds_of(sort_spec(s2)));
    } else {
        lemma_bounds_drop_last(s1, s2);
        lemma_sort_spec_bounds(s1.drop_last(), s2.drop_last());
        assert(s1.last().begin == s2.last().begin && s1.last().end == s2.last().end);
        lemma_insert_sorted_bounds(
            s1.last(),
            sort_spec(s1.drop_last()),
            s2.last(),
            sort_spec(s2.drop_last()),
        );
    }
}

/// The union sweep depends on the bounds alone: the tags neither steer a
/// merge decision nor reach the result's bounds.
proof fn lemma_union_sweep_bounds(s1: Seq<Span>, t1: TypeRange, s2: Seq<Span>, t2: TypeRange)
    requires
        bounds_of(s1) == bounds_of(s2),
    ensures
        bounds_of(union_sweep(s1, t1)) == bounds_of(union_sweep(s2, t2)),
    decreases s1.len(),
{
    lemma_bounds_index(s1, s2);
    if s1.len() == 0 {
        assert(bounds_of(union_sweep(s1, t1)) =~= bounds_of(union_sweep(s2, t2)));
    } else if s1.len() == 1 {
        assert(bounds_of(seq![s1[0]]) =~= bounds_of(seq![s2[0]]));
    } else {
        lemma_bounds_drop_last(s1, s2);
        lemma_union_sweep_bounds(s1.drop_last(), t1, s2.drop_last(), t2);
        let p1 = union_sweep(s1.drop_last(), t1);
        let p2 = union_sweep(s2.drop_last(), t2);
        lemma_union_sweep_nonempty(s1.drop_last(), t1);
        lemma_union_sweep_nonempty(s2.drop_last(), t2);
        lemma_bounds_index(p1, p2);
        assert(p1.last().begin == p2.last().begin && p1.last().end == p2.last().end);
        assert(s1.last().begin == s2.last().begin && s1.last().end == s2.last().end);
        // both sides take the same branch, and either way the changed or
        // appended element carries the same bounds
        let m1 = Span {
            begin: p1.last().begin,
            end: if p1.last().end >= s1.last().end {
                p1.last().end
            } else {
                s1.last().end
            },
            range_of: p1.last().range_of,
        };
        let m2 = Span {
            begin: p2.last().begin,
            end: if p2.last().end >= s2.last().end {
                p2.last().end
            } else {
                s2.last().end
            },
            range_of: p2.last().range_of,
        };
        assert(bounds_of(p1.update(p1.len() - 1, m1)) =~= bounds_of(p2.update(p2.len() - 1, m2)));
        assert(bounds_of(p1.push(Span { begin: s1.last().begin, end: s1.last().end, range_of: t1 }))
            =~= bounds_of(
            p2.push(Span { begin: s2.last().begin, end: s2.last().end, range_of: t2 }),
        ));
    }
}

/// The two-pointer intersection depends on the bounds alone.
proof fn lemma_inter_spec_bounds(
    a1: Seq<Span>,
    b1: Seq<Span>,
    t1: TypeRange,
    a2: Seq<Span>,
    b2: Seq<Span>,
    t2: TypeRange,
)
    requires
        bounds_of(a1) == bounds_of(a2),
        bounds_of(b1) == bounds_of(b2),
    ensures
        bounds_of(inter_spec(a1, b1, t1)) == bounds_of(inter_spec(a2, b2, t2)),
    decreases a1.len() + b1.len(),
{
    lemma_bounds_index(a1, a2);
    lemma_bounds_index(b1, b2);
    if a1.len() == 0 || b1.len() == 0 {
        assert(bounds_of(inter_spec(a1, b1, t1)) =~= bounds_of(inter_spec(a2, b2, t2)));
    } else {
        let h1 = if b1[0].begin <= a1[0].end && a1[0].begin <= b1[0].end {
            seq![span_inter(a1[0], b1[0], t1)]
        } else {
            Seq::<Span>::empty()
        };
        let h2 = if b2[0].begin <= a2[0].end && a2[0].begin <= b2[0].end {
            seq![span_inter(a2[0], b2[0], t2)]
        } else {
            Seq::<Span>::empty()
        };
        assert(bounds_of(h1) =~= bounds_of(h2));
        if a1[0].end > b1[0].end {
            lemma_bounds_drop_first(b1, b2);
            lemma_inter_spec_bounds(a1, b1.drop_first(), t1, a2, b2.drop_first(), t2);
            lemma_bounds_concat(
                h1,
                inter_spec(a1, b1.drop_first(), t1),
                h2,
                inter_spec(a2, b2.drop_first(), t2),
            );
        } else {
            lemma_bounds_drop_first(a1, a2);
            lemma_inter_spec_bounds(a1.drop_first(), b1, t1, a2.drop_first(), b2, t2);
            lemma_bounds_concat(
                h1,
                inter_spec(a1.drop_first(), b1, t1),
                h2,
                inter_spec(a2.drop_first(), b2, t2),
            );
        }
    }
}

/// Union is domain-generic at the representation level: operands with the
/// same bounds give a union with the same bounds, whatever the two domain
/// tags. (The complement, and with it difference and symmetric difference,
/// genuinely read the domain maximum, so only their coverage form is
/// domain-generic.)
pub proof fn law_union_domain_generic(
    a1: Seq<Span>,
    b1: Seq<Span>,
    t1: TypeRange,
    a2: Seq<Span>,
    b2: Seq<Span>,
    t2: TypeRange,
)
    requires
        bounds_of(a1) == bounds_of(a2),
        bounds_of(b1) == bounds_of(b2),
    ensures
        bounds_of(union_sweep(sort_spec(a1 + b1), t1)) == bounds_of(
            union_sweep(sort_spec(a2 + b2), t2),
        ),
{
    lemma_bounds_concat(a1, b1, a2, b2);
    lemma_sort_spec_bounds(a1 + b1, a2 + b2);
    lemma_union_sweep_bounds(sort_spec(a1 + b1), t1, sort_spec(a2 + b2), t2);
}

/// Intersection is domain-generic at the representation level: operands
/// with the same bounds give an intersection with the same bounds, whatever
/// the two domain tags.
pub proof fn law_intersection_domain_generic(
    a1: Seq<Span>,
    b1: Seq<Span>,
    t1: TypeRange,
    a2: Seq<Span>,
    b2: Seq<Span>,
    t2: TypeRange,
)
    requires
        bounds_of(a1) == bounds_of(a2),
        bounds_of(b1) == bounds_of(b2),
    ensures
        bounds_of(inter_spec(a1, b1, t1)) == bounds_of(inter_spec(a2, b2, t2)),
{
    lemma_inter_spec_bounds(a1, b1, t1, a2, b2, t2);
}

/// Two interval lists cover the same points.
pub open spec fn same_cover(a: Seq<Span>, b: Seq<Span>) -> bool {
    forall|x: int| covers(a, x) <==> covers(b, x)
}

/// In a separated well-formed list, the tail covers exactly the covered
/// points past the first interval's end.
proof fn lemma_covers_tail(rs: Seq<Span>, t: TypeRange)
    requires
        rs.len() > 0,
        all_wf(rs, t),
        separated(rs),
    ensures
        forall|x: int| covers(rs.drop_first(), x) <==> covers(rs, x) && x > rs[0].end,
{
    assert forall|x: int|
        covers(rs.drop_first(), x) <==> covers(rs, x) && x > rs[0].end by {
        if covers(rs.drop_first(), x) {
            let i = choose|i: int|
                0 <= i < rs.drop_first().len() && in_span(rs.drop_first()[i], x);
            assert(rs.drop_first()[i] == rs[i + 1]);
            assert(rs[0].end + 1 < rs[i + 1].begin);
            assert(in_span(rs[i + 1], x));
        }
        if covers(rs, x) && x > rs[0].end {
            let i = choose|i: int| 0 <= i < rs.len() && in_span(rs[i], x);
            assert(i != 0);
            assert(in_span(rs.drop_first()[i - 1], x));
        }
    }
}

/// A coverage has exactly one separated well-formed representation: two
/// such lists covering the same points are the same list.
#[verifier::rlimit(100)]
pub proof fn lemma_separated_unique(a: Seq<Span>, b: Seq<Span>, t: TypeRange)
    requires
        all_wf(a, t),
        all_wf(b, t),
        separated(a),
        separated(b),
        same_cover(a, b),
    ensures
        a == b,
    decreases a.len(),
{
    if a.len() == 0 {
        if b.len() > 0 {
            assert(in_span(b[0], b[0].begin as int));
            assert(covers(b, b[0].begin as int));
            assert(false);
        }
        assert(a =~= b);
    } else if b.len() == 0 {
        assert(in_span(a[0], a[0].begin as int));
        assert(covers(a, a[0].begin as int));
        assert(false);
    } else {
        lemma_separated_props(a, t);
        lemma_separated_props(b, t);
        let ab = a[0].begin as int;
        let bb = b[0].begin as int;
        assert(covers(a, ab)) by {
            assert(in_span(a[0], ab));
        }
        assert(covers(b, bb)) by {
            assert(in_span(b[0], bb));
        }
        // the least covered point is the first begin, on both sides
        assert(bb <= ab) by {
            let j = choose|j: int| 0 <= j < b.len() && in_span(b[j], ab);
            assert(b[0].begin <= b[j].begin);
        }
        assert(ab <= bb) by {
            let j = choose|j: int| 0 <= j < a.len() && in_span(a[j], bb);
            assert(a[0].begin <= a[j].begin);
        }
        // were one first end shorter, the point after it would be covered on
        // one side only
        let ae = a[0].end as int;
        let be = b[0].end as int;
        if ae < be {
            assert(covers(b, ae + 1)) by {
                assert(in_span(b[0], ae + 1));
            }
            assert(!covers(a, ae + 1)) by {
                if covers(a, ae + 1) {
                    let i = choose|i: int| 0 <= i < a.len() && in_span(a[i], ae + 1);
                    assert(i != 0);
                    assert(a[0].end + 1 < a[i].begin);
                }
            }
            assert(false);
        }
        if be < ae {
            assert(covers(a, be + 1)) by {
                assert(in_span(a[0], be + 1));
            }
            assert(!covers(b, be + 1)) by {
                if covers(b, be + 1) {
                    let i = choose|i: int| 0 <= i < b.len() && in_span(b[i], be + 1);
                    assert(i != 0);
                    assert(b[0].end + 1 < b[i].begin);
                }
            }
            assert(false);
        }
        assert(a[0] == b[0]);
        let at = a.drop_first();
        let bt = b.drop_first();
        assert forall|k: int| 0 <= k < at.len() implies span_wf(#[trigger] at[k]) && at[k].range_of
            == t by {
            assert(at[k] == a[k + 1]);
        }
        assert forall|k: int| 0 <= k < bt.len() implies span_wf(#[trigger] bt[k]) && bt[k].range_of
            == t by {
            assert(bt[k] == b[k + 1]);
        }
        assert forall|i: int, j: int| 0 <= i < j < at.len() implies at[i].end + 1 < at[j].begin by {
            assert(at[i] == a[i + 1] && at[j] == a[j + 1]);
        }
        assert forall|i: int, j: int| 0 <= i < j < bt.len() implies bt[i].end + 1 < bt[j].begin by {
            assert(bt[i] == b[i + 1] && bt[j] == b[j + 1]);
        }
        lemma_covers_tail(a, t);
        lemma_covers_tail(b, t);
        assert forall|x: int| covers(at, x) <==> covers(bt, x) by {
            assert(covers(at, x) <==> covers(a, x) && x > a[0].end);
            assert(covers(bt, x) <==> covers(b, x) && x > b[0].end);
        }
        assert(same_cover(at, bt));
        lemma_separated_unique(at, bt, t);
        assert(at == bt);
        assert(at.len() == a.len() - 1 && bt.len() == b.len() - 1);
        assert forall|k: int| 0 <= k < a.len() implies a[k] == b[k] by {
            if k > 0 {
                assert(at[k - 1] == bt[k - 1]);
                assert(a.drop_first()[k - 1] == a[k]);
                assert(b.drop_first()[k - 1] == b[k]);
            }
        }
        assert(a =~= b);
    }
}

/// Complement is an involution: complementing a separated set twice gives
/// back the original. The hypotheses on `c` and `cc` are exactly what the
/// complement operator guarantees of its results.
pub proof fn law_complement_involution(s: Seq<Span>, c: Seq<Span>, cc: Seq<Span>, t: TypeRange)
    requires
        all_wf(s, t),
        separated(s),
        all_wf(c, t),
        separated(c),
        all_wf(cc, t),
        separated(cc),
        forall|x: int| 0 <= x <= domain_max(t) ==> (covers(c, x) <==> !covers(s, x)),
        forall|x: int| 0 <= x <= domain_max(t) ==> (covers(cc, x) <==> !covers(c, x)),
    ensures
        cc == s,
{
    lemma_covers_in_domain(s, t);
    lemma_covers_in_domain(cc, t);
    assert forall|x: int| covers(cc, x) <==> covers(s, x) by {
        if 0 <= x <= domain_max(t) {
        }
    }
    lemma_separated_unique(cc, s, t);
}

/// Union is commutative: results meeting the union contract for the two
/// operand orders cover the same points.
pub proof fn law_union_commutative(a: Seq<Span>, b: Seq<Span>, u1: Seq<Span>, u2: Seq<Span>)
    requires
        forall|x: int| covers(u1, x) <==> covers(a, x) || covers(b, x),
        forall|x: int| covers(u2, x) <==> covers(b, x) || covers(a, x),
    ensures
        same_cover(u1, u2),
{
}

/// A mask of unit address values projects to exactly one socket interval
/// per (address, port range) pair, in row order, each interval packing the
/// address with the port range's two bounds.
pub proof fn law_projection_cardinality(ips: Seq<IP>, ports: Seq<Port>)
    requires
        forall|i: int| 0 <= i < ips.len() ==> (#[trigger] ips[i]).begin == ips[i].end,
    ensures
        collapse_spec(ips, ports).len() == ips.len() * ports.len(),
        forall|i: int, j: int|
            0 <= i < ips.len() && 0 <= j < ports.len() ==> collapse_spec(ips, ports)[i * (
            ports.len() as int) + j] == socket_span(ips[i].begin, ports[j]),
    decreases ips.len(),
{
    let m = ports.len() as int;
    let n = ips.len() as int;
    let whole = collapse_spec(ips, ports);
    if ips.len() == 0 {
        assert(n * m == 0) by (nonlinear_arith)
            requires
                n == 0,
        ;
    } else {
        let pre = ips.drop_last();
        law_projection_cardinality(pre, ports);
        let lastb = ips.last().begin;
        let cnt = (ips.last().end - ips.last().begin + 1) as nat;
        assert(cnt == 1);
        assert(rows(lastb, 0, ports) + ports_row((lastb + 1 - 1) as u64, ports) =~= ports_row(
            lastb,
            ports,
        ));
        assert(whole == collapse_spec(pre, ports) + ports_row(lastb, ports));
        assert(whole.len() == (n - 1) * m + m);
        assert((n - 1) * m + m == n * m) by (nonlinear_arith);
        assert forall|i: int, j: int| 0 <= i < n && 0 <= j < m implies whole[i * m + j]
            == socket_span(ips[i].begin, ports[j]) by {
            assert(0 <= i * m + j) by (nonlinear_arith)
                requires
                    0 <= i && 0 <= j && 0 <= m,
            ;
            if i < n - 1 {
                assert(i * m + j < (n - 1) * m) by (nonlinear_arith)
                    requires
                        0 <= j < m && 0 <= i && i < n - 1,
                ;
                assert(whole[i * m + j] == collapse_spec(pre, ports)[i * m + j]);
                assert(pre[i] == ips[i]);
            } else {
                assert(i == n - 1);
                assert(whole[i * m + j] == ports_row(lastb, ports)[j]);
            }
        }
    }
}

} // verus!
