use crate::taxonomy::{lines_of, FacetCount, FacetCountView};
use crate::text::{lemma_lex_total, lemma_lex_transitive, lex_less, lex_lt};
use crate::path::is_prefix;
use crate::taxonomy::{child_counts, EntryView};
use vstd::prelude::*;
use vstd::seq_lib::{
    lemma_multiset_commutative, to_multiset_build, to_multiset_contains, to_multiset_insert,
};

verus! {

/// The order of a report: the larger count first, and of two equal counts
/// the one whose last segment comes later in the lexical order.
pub open spec fn precedes(a: FacetCountView, b: FacetCountView) -> bool {
    a.count > b.count || (a.count == b.count && lex_lt(b.path.last(), a.path.last()))
}

/// Each line precedes all that follow it.
pub open spec fn descending(lines: Seq<FacetCountView>) -> bool {
    forall|i: int, j: int|
        0 <= i < j < lines.len() ==> precedes(#[trigger] lines[i], #[trigger] lines[j])
}

/// No line is of the root, and no two lines end in the same segment.
pub open spec fn distinct_children(lines: Seq<FacetCountView>) -> bool {
    &&& forall|i: int| 0 <= i < lines.len() ==> (#[trigger] lines[i]).path.len() > 0
    &&& forall|i: int, j: int|
        0 <= i < j < lines.len() ==> (#[trigger] lines[i]).path.last() != (
        #[trigger] lines[j]).path.last()
}

/// The two lists hold the same lines, each as often as the other.
pub open spec fn same_lines(a: Seq<FacetCountView>, b: Seq<FacetCountView>) -> bool {
    a.to_multiset() == b.to_multiset()
}

/// The order is transitive.
pub proof fn lemma_precedes_transitive(a: FacetCountView, b: FacetCountView, c: FacetCountView)
    requires
        precedes(a, b),
        precedes(b, c),
    ensures
        precedes(a, c),
{
    if a.count == b.count && b.count == c.count {
        lemma_lex_transitive(c.path.last(), b.path.last(), a.path.last());
    }
}

/// Of two lines that end in different segments, one precedes the other.
pub proof fn lemma_precedes_total(a: FacetCountView, b: FacetCountView)
    requires
        a.path.last() != b.path.last(),
    ensures
        precedes(a, b) || precedes(b, a),
{
    lemma_lex_total(a.path.last(), b.path.last());
}

/// Whether line `a` precedes line `b` in a report.
pub fn line_precedes(a: &FacetCount, b: &FacetCount) -> (r: bool)
    requires
        a@.path.len() > 0,
        b@.path.len() > 0,
    ensures
        r == precedes(a@, b@),
{
    if a.count != b.count {
        return a.count > b.count;
    }
    let last_a: &String = a.path.segment(a.path.depth() - 1);
    let last_b: &String = b.path.segment(b.path.depth() - 1);
    lex_less(last_b.as_str(), last_a.as_str())
}

/// A line of one list stands in every list with the same lines.
pub proof fn lemma_shared_line(x: Seq<FacetCountView>, y: Seq<FacetCountView>, i: int)
    requires
        same_lines(x, y),
        0 <= i < x.len(),
    ensures
        exists|a: int| 0 <= a < y.len() && y[a] == x[i],
{
    assert(x.contains(x[i]));
    to_multiset_contains(x, x[i]);
    to_multiset_contains(y, x[i]);
    assert(y.contains(x[i]));
}

/// A list with the same lines as one of distinct children is one of
/// distinct children.
pub proof fn lemma_same_lines_distinct(x: Seq<FacetCountView>, y: Seq<FacetCountView>)
    requires
        same_lines(x, y),
        distinct_children(y),
    ensures
        distinct_children(x),
        x.no_duplicates(),
{
    assert forall|i: int, j: int| 0 <= i < y.len() && 0 <= j < y.len() && i != j implies y[i]
        != y[j] by {
        if i < j {
            assert(y[i].path.last() != y[j].path.last());
        } else {
            assert(y[j].path.last() != y[i].path.last());
        }
    }
    y.lemma_multiset_has_no_duplicates();
    x.lemma_multiset_has_no_duplicates_conv();
    assert forall|i: int| 0 <= i < x.len() implies (#[trigger] x[i]).path.len() > 0 by {
        lemma_shared_line(x, y, i);
    }
    assert forall|i: int, j: int| 0 <= i < j < x.len() implies (#[trigger] x[i]).path.last() != (
    #[trigger] x[j]).path.last() by {
        lemma_shared_line(x, y, i);
        lemma_shared_line(x, y, j);
        let a = choose|a: int| 0 <= a < y.len() && y[a] == x[i];
        let b = choose|b: int| 0 <= b < y.len() && y[b] == x[j];
        assert(x[i] != x[j]);
        if a < b {
            assert(y[a].path.last() != y[b].path.last());
        } else {
            assert(y[b].path.last() != y[a].path.last());
        }
    }
}

/// The children of one path, each listed once, end in different segments.
pub proof fn lemma_children_distinct(
    lines: Seq<FacetCountView>,
    entries: Seq<EntryView>,
    p: Seq<Seq<char>>,
)
    requires
        child_counts(lines, entries, p),
    ensures
        distinct_children(lines),
{
    assert forall|i: int, j: int| 0 <= i < j < lines.len() implies (#[trigger] lines[i]).path.last()
        != (#[trigger] lines[j]).path.last() by {
        if lines[i].path.last() == lines[j].path.last() {
            assert(lines[i].path =~= lines[j].path);
        }
    }
}

/// A list with the same lines as the children of a path, with their
/// counts, is such a list too.
pub proof fn lemma_child_counts_permuted(
    x: Seq<FacetCountView>,
    y: Seq<FacetCountView>,
    entries: Seq<EntryView>,
    p: Seq<Seq<char>>,
)
    requires
        same_lines(x, y),
        child_counts(y, entries, p),
    ensures
        child_counts(x, entries, p),
{
    lemma_children_distinct(y, entries, p);
    lemma_same_lines_distinct(x, y);
    assert forall|i: int| 0 <= i < x.len() implies {
        &&& (#[trigger] x[i]).path.len() == p.len() + 1
        &&& is_prefix(p, x[i].path)
        &&& x[i].count == crate::taxonomy::count_under(entries, x[i].path)
        &&& x[i].count > 0
    } by {
        lemma_shared_line(x, y, i);
        let a = choose|a: int| 0 <= a < y.len() && y[a] == x[i];
        assert(y[a].path.len() == p.len() + 1);
    }
    assert forall|i: int, j: int| 0 <= i < j < x.len() implies (#[trigger] x[i]).path != (
    #[trigger] x[j]).path by {
        assert(x[i].path.last() != x[j].path.last());
    }
    assert forall|c: Seq<char>| #[trigger]
        crate::taxonomy::count_under(entries, p.push(c)) > 0 implies exists|i: int|
        0 <= i < x.len() && (#[trigger] x[i]).path == p.push(c) by {
        let a = choose|a: int| 0 <= a < y.len() && (#[trigger] y[a]).path == p.push(c);
        lemma_shared_line(y, x, a);
        let i = choose|i: int| 0 <= i < x.len() && x[i] == y[a];
        assert(x[i].path == p.push(c));
    }
}

/// Sorts the lines of a report: the largest count first, and equal counts
/// from the lexically last child to the first.
pub fn sort_descending(lines: Vec<FacetCount>) -> (r: Vec<FacetCount>)
    requires
        distinct_children(lines_of(lines@)),
    ensures
        same_lines(lines_of(r@), lines_of(lines@)),
        descending(lines_of(r@)),
{
    let ghost orig = lines_of(lines@);
    let mut rest: Vec<FacetCount> = lines;
    let mut out: Vec<FacetCount> = Vec::new();
    proof {
        assert(lines_of(out@) + lines_of(rest@) =~= orig);
        lemma_multiset_commutative(lines_of(out@), lines_of(rest@));
    }
    while rest.len() > 0
        invariant
            distinct_children(orig),
            lines_of(out@).to_multiset().add(lines_of(rest@).to_multiset()) == orig.to_multiset(),
            descending(lines_of(out@)),
        decreases rest.len(),
    {
        let ghost before_rest = lines_of(rest@);
        let ghost before_out = lines_of(out@);
        proof {
            lemma_multiset_commutative(before_out, before_rest);
            lemma_same_lines_distinct(before_out + before_rest, orig);
        }
        let ghost all = before_out + before_rest;
        let line: FacetCount = rest.pop().unwrap();
        let ghost after_rest = lines_of(rest@);
        proof {
            assert(before_rest =~= after_rest.push(line@));
            to_multiset_build(after_rest, line@);
            assert(all[all.len() - 1] == line@);
            assert(line@.path.len() > 0);
            assert forall|q: int| 0 <= q < out.len() implies (#[trigger] before_out[q]).path.last()
                != line@.path.last() && before_out[q].path.len() > 0 by {
                assert(all[q] == before_out[q]);
                assert(all[q].path.last() != all[all.len() - 1].path.last());
            }
        }
        proof {
            assert forall|q: int| 0 <= q < out.len() implies (#[trigger] out[q])@.path.len()
                > 0 by {
                assert(before_out[q] == out[q]@);
            }
        }
        let mut at: usize = out.len();
        while at > 0 && line_precedes(&line, &out[at - 1])
            invariant
                at <= out.len(),
                before_out == lines_of(out@),
                line@.path.len() > 0,
                forall|q: int| 0 <= q < out.len() ==> (#[trigger] out[q])@.path.len() > 0,
                forall|q: int| at <= q < out.len() ==> precedes(line@, (#[trigger] out[q])@),
            decreases at,
        {
            at = at - 1;
        }
        proof {
            if at > 0 {
                assert(before_out[at - 1] == out[at - 1]@);
                lemma_precedes_total(before_out[at - 1], line@);
                assert forall|q: int| 0 <= q < at implies precedes(
                    #[trigger] before_out[q],
                    line@,
                ) by {
                    if q < at - 1 {
                        lemma_precedes_transitive(before_out[q], before_out[at - 1], line@);
                    }
                }
            }
        }
        proof {
            assert forall|q: int| at <= q < before_out.len() implies precedes(
                line@,
                #[trigger] before_out[q],
            ) by {
                assert(before_out[q] == out[q]@);
            }
            to_multiset_insert(before_out, at as int, line@);
        }
        out.insert(at, line);
        proof {
            let now = lines_of(out@);
            assert(now =~= before_out.insert(at as int, line@));
            assert(now.to_multiset().add(after_rest.to_multiset()) =~= orig.to_multiset());
            assert forall|i: int, j: int| 0 <= i < j < now.len() implies precedes(
                #[trigger] now[i],
                #[trigger] now[j],
            ) by {
                if j < at {
                    assert(now[i] == before_out[i] && now[j] == before_out[j]);
                } else if j == at {
                    assert(now[i] == before_out[i]);
                } else if i < at {
                    assert(now[i] == before_out[i] && now[j] == before_out[j - 1]);
                } else if i == at {
                    assert(now[j] == before_out[j - 1]);
                } else {
                    assert(now[i] == before_out[i - 1] && now[j] == before_out[j - 1]);
                }
            }
        }
    }
    proof {
        assert(lines_of(out@) + lines_of(rest@) =~= lines_of(out@));
        lemma_multiset_commutative(lines_of(out@), lines_of(rest@));
    }
    out
}

} // verus!
