use crate::document::{clone_paths, paths};
use crate::error::EngineError;
use crate::path::{
    is_prefix, lemma_prefix_of_child, path_of_text, valid_path_text, valid_segment, FacetPath,
};
use crate::tally::Tally;
use crate::text::{lemma_lex_irreflexive, lex_lt};
use vstd::prelude::*;

verus! {

/// What the taxonomy knows of one document: its id and its facet paths.
pub struct EntryView {
    pub id: i64,
    pub facets: Seq<Seq<Seq<char>>>,
}

/// What a line of a report says: a path and the number of documents at or
/// below it.
pub struct FacetCountView {
    pub path: Seq<Seq<char>>,
    pub count: u64,
}

/// One of the facet paths is `q` or lies below `q`.
pub open spec fn carries_under(facets: Seq<Seq<Seq<char>>>, q: Seq<Seq<char>>) -> bool {
    exists|j: int| 0 <= j < facets.len() && is_prefix(q, #[trigger] facets[j])
}

/// The number of documents that carry a path at or below `q`. Each document
/// counts once, however many of its paths lie there.
pub open spec fn count_under(entries: Seq<EntryView>, q: Seq<Seq<char>>) -> nat
    decreases entries.len(),
{
    if entries.len() == 0 {
        0
    } else {
        count_under(entries.drop_last(), q) + if carries_under(entries.last().facets, q) {
            1nat
        } else {
            0nat
        }
    }
}

/// The entries but the one of document `id`.
pub open spec fn without(entries: Seq<EntryView>, id: i64) -> Seq<EntryView>
    decreases entries.len(),
{
    if entries.len() == 0 {
        entries
    } else if entries.last().id == id {
        without(entries.drop_last(), id)
    } else {
        without(entries.drop_last(), id).push(entries.last())
    }
}

/// Some entry is of document `id`.
pub open spec fn has_id(entries: Seq<EntryView>, id: i64) -> bool {
    exists|i: int| 0 <= i < entries.len() && (#[trigger] entries[i]).id == id
}

/// No two entries are of the same document.
pub open spec fn distinct_ids(entries: Seq<EntryView>) -> bool {
    forall|i: int, j: int|
        0 <= i < j < entries.len() ==> (#[trigger] entries[i]).id != (#[trigger] entries[j]).id
}

/// The lines are the children of `p` under which a document lies, each
/// once and with its count.
pub open spec fn child_counts(
    lines: Seq<FacetCountView>,
    entries: Seq<EntryView>,
    p: Seq<Seq<char>>,
) -> bool {
    &&& forall|i: int|
        0 <= i < lines.len() ==> {
            &&& (#[trigger] lines[i]).path.len() == p.len() + 1
            &&& is_prefix(p, lines[i].path)
            &&& lines[i].count == count_under(entries, lines[i].path)
            &&& lines[i].count > 0
        }
    &&& forall|i: int, j: int|
        0 <= i < j < lines.len() ==> (#[trigger] lines[i]).path != (#[trigger] lines[j]).path
    &&& forall|c: Seq<char>|
        #[trigger] count_under(entries, p.push(c)) > 0 ==> exists|i: int|
            0 <= i < lines.len() && (#[trigger] lines[i]).path == p.push(c)
}

/// The lines stand in the lexical order of their last segments.
pub open spec fn ascending_children(lines: Seq<FacetCountView>) -> bool {
    forall|i: int, j: int|
        0 <= i < j < lines.len() ==> lex_lt(
            (#[trigger] lines[i]).path.last(),
            (#[trigger] lines[j]).path.last(),
        )
}

/// The views of a list of report lines.
pub open spec fn lines_of(v: Seq<FacetCount>) -> Seq<FacetCountView> {
    Seq::new(v.len(), |i: int| v[i]@)
}

/// No more documents are counted than there are.
pub proof fn lemma_count_bounded(entries: Seq<EntryView>, q: Seq<Seq<char>>)
    ensures
        count_under(entries, q) <= entries.len(),
    decreases entries.len(),
{
    if entries.len() > 0 {
        lemma_count_bounded(entries.drop_last(), q);
    }
}

/// Without an entry of `id`, taking `id` out changes nothing.
pub proof fn lemma_without_absent(entries: Seq<EntryView>, id: i64)
    requires
        !has_id(entries, id),
    ensures
        without(entries, id) == entries,
    decreases entries.len(),
{
    if entries.len() > 0 {
        let head = entries.drop_last();
        assert(entries[entries.len() - 1].id != id);
        assert forall|i: int| 0 <= i < head.len() implies (#[trigger] head[i]).id != id by {
            assert(entries[i].id != id);
        }
        lemma_without_absent(head, id);
        assert(head.push(entries.last()) =~= entries);
    }
}

/// With distinct ids, taking `id` out removes the one entry that has it.
pub proof fn lemma_without_present(entries: Seq<EntryView>, id: i64, at: int)
    requires
        distinct_ids(entries),
        0 <= at < entries.len(),
        entries[at].id == id,
    ensures
        without(entries, id) == entries.remove(at),
    decreases entries.len(),
{
    let head = entries.drop_last();
    if at == entries.len() - 1 {
        assert forall|i: int| 0 <= i < head.len() implies (#[trigger] head[i]).id != id by {
            assert(entries[i].id != entries[at].id);
        }
        assert(!has_id(head, id));
        lemma_without_absent(head, id);
        assert(entries.remove(at) =~= head);
    } else {
        assert(entries[at].id != entries[entries.len() - 1].id);
        assert forall|i: int, j: int| 0 <= i < j < head.len() implies (#[trigger] head[i]).id != (
        #[trigger] head[j]).id by {
            assert(entries[i].id != entries[j].id);
        }
        lemma_without_present(head, id, at);
        assert(head.remove(at).push(entries.last()) =~= entries.remove(at));
    }
}

/// What is left when `id` is taken out has no entry of `id`, keeps its ids
/// distinct, and holds only entries that were there.
pub proof fn lemma_without_properties(entries: Seq<EntryView>, id: i64)
    ensures
        !has_id(without(entries, id), id),
        without(entries, id).len() <= entries.len(),
        forall|i: int|
            0 <= i < without(entries, id).len() ==> has_id(
                entries,
                (#[trigger] without(entries, id)[i]).id,
            ),
        distinct_ids(entries) ==> distinct_ids(without(entries, id)),
    decreases entries.len(),
{
    if entries.len() > 0 {
        let head = entries.drop_last();
        let rest = without(head, id);
        lemma_without_properties(head, id);
        let out = without(entries, id);
        assert forall|i: int| 0 <= i < out.len() implies has_id(entries, (#[trigger] out[i]).id) by {
            if i < rest.len() {
                assert(out[i] == rest[i]);
                assert(has_id(head, rest[i].id));
                let k = choose|k: int| 0 <= k < head.len() && (#[trigger] head[k]).id == rest[i].id;
                assert(entries[k].id == out[i].id);
            } else {
                assert(entries[entries.len() - 1].id == out[i].id);
            }
        }
        if entries.last().id != id {
            assert forall|i: int| 0 <= i < out.len() implies (#[trigger] out[i]).id != id by {
                if i < rest.len() {
                    assert(out[i] == rest[i]);
                }
            }
        }
        if distinct_ids(entries) {
            assert forall|i: int, j: int| 0 <= i < j < head.len() implies (#[trigger] head[i]).id
                != (#[trigger] head[j]).id by {
                assert(entries[i].id != entries[j].id);
            }
            assert forall|i: int, j: int| 0 <= i < j < out.len() implies (#[trigger] out[i]).id != (
            #[trigger] out[j]).id by {
                if j < rest.len() {
                    assert(out[i] == rest[i] && out[j] == rest[j]);
                } else {
                    assert(out[i] == rest[i]);
                    assert(has_id(head, rest[i].id));
                    let k = choose|k: int|
                        0 <= k < head.len() && (#[trigger] head[k]).id == rest[i].id;
                    assert(entries[k].id != entries[entries.len() - 1].id);
                }
            }
        }
    }
}

/// One of the first `j` facet paths is `q` or lies below `q`.
spec fn under_before(facets: Seq<Seq<Seq<char>>>, j: int, q: Seq<Seq<char>>) -> bool {
    exists|m: int| 0 <= m < j && m < facets.len() && is_prefix(q, #[trigger] facets[m])
}

/// The count of the child `x` of `p` over the first `k` entries and the
/// first `j` facet paths of the entry after them.
spec fn tallied(
    entries: Seq<EntryView>,
    k: int,
    j: int,
    p: Seq<Seq<char>>,
    x: Seq<char>,
) -> nat {
    count_under(entries.take(k), p.push(x)) + if under_before(entries[k].facets, j, p.push(x)) {
        1nat
    } else {
        0nat
    }
}

proof fn lemma_under_step(facets: Seq<Seq<Seq<char>>>, j: int, q: Seq<Seq<char>>)
    requires
        0 <= j < facets.len(),
    ensures
        under_before(facets, j + 1, q) <==> (under_before(facets, j, q) || is_prefix(q, facets[j])),
{
    if under_before(facets, j + 1, q) {
        let m = choose|m: int| 0 <= m < j + 1 && m < facets.len() && is_prefix(q, #[trigger] facets[m]);
        if m < j {
            assert(under_before(facets, j, q));
        }
    }
    if under_before(facets, j, q) {
        let m = choose|m: int| 0 <= m < j && m < facets.len() && is_prefix(q, #[trigger] facets[m]);
        assert(0 <= m < j + 1 && is_prefix(q, facets[m]));
    }
    if is_prefix(q, facets[j]) {
        assert(0 <= j < j + 1 && is_prefix(q, facets[j]));
    }
}

proof fn lemma_tallied_whole(entries: Seq<EntryView>, k: int, p: Seq<Seq<char>>, x: Seq<char>)
    requires
        0 <= k < entries.len(),
    ensures
        tallied(entries, k, entries[k].facets.len() as int, p, x) == tallied(
            entries,
            k + 1,
            0,
            p,
            x,
        ),
{
    let q = p.push(x);
    let facets = entries[k].facets;
    assert(entries.take(k + 1).drop_last() =~= entries.take(k));
    assert(entries.take(k + 1).last() == entries[k]);
    if carries_under(facets, q) {
        let m = choose|m: int| 0 <= m < facets.len() && is_prefix(q, #[trigger] facets[m]);
        assert(0 <= m < facets.len() && m < facets.len() && is_prefix(q, facets[m]));
        assert(under_before(facets, facets.len() as int, q));
    }
    if under_before(facets, facets.len() as int, q) {
        let m = choose|m: int|
            0 <= m < facets.len() && m < facets.len() && is_prefix(q, #[trigger] facets[m]);
        assert(0 <= m < facets.len() && is_prefix(q, facets[m]));
    }
}

/// Whether one of the first `j` paths is the child `name` of `prefix` or
/// lies below it.
fn seen_before(facets: &Vec<FacetPath>, j: usize, prefix: &FacetPath, name: &String) -> (r: bool)
    requires
        j <= facets.len(),
    ensures
        r == under_before(paths(facets@), j as int, prefix@.push(name@)),
{
    let mut m: usize = 0;
    while m < j
        invariant
            m <= j <= facets.len(),
            forall|n: int|
                0 <= n < m ==> !is_prefix(prefix@.push(name@), #[trigger] paths(facets@)[n]),
        decreases j - m,
    {
        proof {
            lemma_prefix_of_child(prefix@, name@, facets[m as int]@);
        }
        match facets[m].segment_below(prefix) {
            Some(s) => {
                if *s == *name {
                    assert(is_prefix(prefix@.push(name@), paths(facets@)[m as int]));
                    return true;
                }
            },
            None => {},
        }
        m = m + 1;
    }
    false
}

/// One line of a report.
#[derive(Debug)]
pub struct FacetCount {
    pub path: FacetPath,
    pub count: u64,
}

impl View for FacetCount {
    type V = FacetCountView;

    open spec fn view(&self) -> FacetCountView {
        FacetCountView { path: self.path@, count: self.count }
    }
}

struct Entry {
    id: i64,
    facets: Vec<FacetPath>,
}

impl View for Entry {
    type V = EntryView;

    closed spec fn view(&self) -> EntryView {
        EntryView { id: self.id, facets: paths(self.facets@) }
    }
}

/// The facet associations of the live documents: for each document id the
/// facet paths that the document carries. It holds no documents.
pub struct FacetTaxonomy {
    entries: Vec<Entry>,
}

impl View for FacetTaxonomy {
    type V = Seq<EntryView>;

    closed spec fn view(&self) -> Seq<EntryView> {
        Seq::new(self.entries@.len(), |i: int| self.entries@[i]@)
    }
}

impl Clone for FacetTaxonomy {
    fn clone(&self) -> (r: Self)
        ensures
            r@ == self@,
    {
        proof {
            use_type_invariant(self);
        }
        let mut entries: Vec<Entry> = Vec::new();
        let mut i: usize = 0;
        while i < self.entries.len()
            invariant
                i <= self.entries.len(),
                entries.len() == i,
                forall|k: int| 0 <= k < i ==> (#[trigger] entries[k])@ == self.entries[k]@,
            decreases self.entries.len() - i,
        {
            let facets: Vec<FacetPath> = clone_paths(&self.entries[i].facets);
            entries.push(Entry { id: self.entries[i].id, facets });
            i = i + 1;
        }
        proof {
            let now = Seq::new(entries@.len(), |k: int| entries@[k]@);
            assert(now =~= self@);
        }
        FacetTaxonomy { entries }
    }
}

impl FacetTaxonomy {
    /// Every taxonomy has at most one entry for a document.
    #[verifier::type_invariant]
    pub open spec fn wf(self) -> bool {
        distinct_ids(self@)
    }

    /// The taxonomy of no documents.
    pub fn new() -> (r: FacetTaxonomy)
        ensures
            r@ == Seq::<EntryView>::empty(),
    {
        let entries: Vec<Entry> = Vec::new();
        let r = FacetTaxonomy { entries };
        assert(r@ =~= Seq::<EntryView>::empty());
        r
    }

    /// The number of documents that have an entry.
    pub fn len(&self) -> (n: usize)
        ensures
            n == self@.len(),
    {
        self.entries.len()
    }

    /// Where the entry of document `id` stands, if there is one.
    fn position(&self, id: i64) -> (r: Option<usize>)
        ensures
            match r {
                Some(at) => at < self@.len() && self@[at as int].id == id,
                None => !has_id(self@, id),
            },
    {
        let mut i: usize = 0;
        while i < self.entries.len()
            invariant
                i <= self.entries.len(),
                forall|k: int| 0 <= k < i ==> (#[trigger] self@[k]).id != id,
            decreases self.entries.len() - i,
        {
            if self.entries[i].id == id {
                return Some(i);
            }
            i = i + 1;
        }
        None
    }

    /// Whether document `id` has an entry.
    pub fn contains(&self, id: i64) -> (r: bool)
        ensures
            r == has_id(self@, id),
    {
        match self.position(id) {
            Some(_) => true,
            None => false,
        }
    }

    /// Removes the facet associations of document `id`, if it has any.
    pub fn unregister(&mut self, id: i64)
        ensures
            final(self)@ == without(old(self)@, id),
    {
        proof {
            use_type_invariant(&*self);
            lemma_without_properties(self@, id);
        }
        match self.position(id) {
            Some(at) => {
                proof {
                    lemma_without_present(self@, id, at as int);
                }
                let ghost before = self@;
                // The entries are moved out, edited and put back.
                let mut entries: Vec<Entry> = Vec::new();
                std::mem::swap(&mut self.entries, &mut entries);
                entries.remove(at);
                proof {
                    let now = Seq::new(entries@.len(), |i: int| entries@[i]@);
                    assert(now =~= before.remove(at as int));
                }
                self.entries = entries;
                assert(self@ =~= before.remove(at as int));
            },
            None => {
                proof {
                    lemma_without_absent(self@, id);
                }
            },
        }
    }

    /// Associates document `id` with the given facet paths, in place of any
    /// it had before.
    pub fn register(&mut self, id: i64, facets: Vec<FacetPath>)
        ensures
            final(self)@ == without(old(self)@, id).push(
                EntryView { id: id, facets: paths(facets@) },
            ),
    {
        self.unregister(id);
        proof {
            use_type_invariant(&*self);
            lemma_without_properties(old(self)@, id);
        }
        let ghost before = self@;
        let ghost entry = EntryView { id: id, facets: paths(facets@) };
        // The entries are moved out, edited and put back.
        let mut entries: Vec<Entry> = Vec::new();
        std::mem::swap(&mut self.entries, &mut entries);
        entries.push(Entry { id, facets });
        proof {
            let now = Seq::new(entries@.len(), |i: int| entries@[i]@);
            assert(now =~= before.push(entry));
            assert forall|i: int, j: int| 0 <= i < j < now.len() implies (#[trigger] now[i]).id
                != (#[trigger] now[j]).id by {
                if j < before.len() {
                    assert(before[i].id != before[j].id);
                } else {
                    assert(before[i].id != id);
                }
            }
        }
        self.entries = entries;
        proof {
            assert(self@ =~= before.push(entry));
            assert forall|i: int, j: int| 0 <= i < j < self@.len() implies (#[trigger] self@[i]).id
                != (#[trigger] self@[j]).id by {
                if j < before.len() {
                    assert(before[i].id != before[j].id);
                } else {
                    assert(before[i].id != id);
                }
            }
        }
    }
    /// Counts, for each child of `prefix` under which a document lies, the
    /// documents that lie there, in one pass over the entries. The lines
    /// come in the lexical order of the children.
    pub fn count_children(&self, prefix: &FacetPath) -> (r: Vec<FacetCount>)
        ensures
            child_counts(lines_of(r@), self@, prefix@),
            ascending_children(lines_of(r@)),
    {
        let mut tally: Tally = Tally::new();
        let mut k: usize = 0;
        while k < self.entries.len()
            invariant
                k <= self.entries.len(),
                tally.wf(),
                forall|x: Seq<char>|
                    #[trigger] tally.count_of(x) == tallied(self@, k as int, 0, prefix@, x),
            decreases self.entries.len() - k,
        {
            let facets: &Vec<FacetPath> = &self.entries[k].facets;
            let mut j: usize = 0;
            while j < facets.len()
                invariant
                    k < self.entries.len(),
                    j <= facets.len(),
                    paths(facets@) == self@[k as int].facets,
                    tally.wf(),
                    forall|x: Seq<char>|
                        #[trigger] tally.count_of(x) == tallied(
                            self@,
                            k as int,
                            j as int,
                            prefix@,
                            x,
                        ),
                decreases facets.len() - j,
            {
                let ghost fs = paths(facets@);
                assert(fs[j as int] == facets[j as int]@);
                let below: Option<&String> = facets[j].segment_below(prefix);
                let fresh: bool = match below {
                    Some(name) => !seen_before(facets, j, prefix, name),
                    None => false,
                };
                let ghost added: Option<Seq<char>> = match below {
                    Some(name) => if fresh {
                        Some(name@)
                    } else {
                        None
                    },
                    None => None,
                };
                proof {
                    assert forall|x: Seq<char>| #[trigger]
                        tallied(self@, k as int, j + 1, prefix@, x) == tallied(
                            self@,
                            k as int,
                            j as int,
                            prefix@,
                            x,
                        ) + if added == Some(x) {
                            1nat
                        } else {
                            0nat
                        } by {
                        lemma_under_step(fs, j as int, prefix@.push(x));
                        lemma_prefix_of_child(prefix@, x, fs[j as int]);
                    }
                }
                match below {
                    Some(name) => {
                        if fresh {
                            proof {
                                lemma_count_bounded(self@.take(k as int), prefix@.push(name@));
                            }
                            tally.bump(name);
                        }
                    },
                    None => {},
                }
                j = j + 1;
            }
            proof {
                assert forall|x: Seq<char>| #[trigger]
                    tallied(self@, k + 1, 0, prefix@, x) == tallied(
                        self@,
                        k as int,
                        j as int,
                        prefix@,
                        x,
                    ) by {
                    lemma_tallied_whole(self@, k as int, prefix@, x);
                }
            }
            k = k + 1;
        }
        proof {
            assert(self@.take(k as int) =~= self@);
            tally.lemma_listing();
        }
        let mut lines: Vec<FacetCount> = Vec::new();
        let mut i: usize = 0;
        while i < tally.len()
            invariant
                i <= tally.size(),
                tally.wf(),
                lines.len() == i,
                forall|n: int| 0 <= n < tally.size() ==> valid_segment(#[trigger] tally.name_at(n)),
                forall|n: int|
                    0 <= n < i ==> (#[trigger] lines[n])@ == (FacetCountView {
                        path: prefix@.push(tally.name_at(n)),
                        count: tally.count_at(n),
                    }),
            decreases tally.size() - i,
        {
            let path: FacetPath = prefix.extend(tally.name(i).as_str());
            lines.push(FacetCount { path, count: tally.count(i) });
            i = i + 1;
        }
        proof {
            let out = lines_of(lines@);
            let e = self@;
            let p = prefix@;
            assert forall|n: int| 0 <= n < out.len() implies {
                &&& (#[trigger] out[n]).path.len() == p.len() + 1
                &&& is_prefix(p, out[n].path)
                &&& out[n].count == count_under(e, out[n].path)
                &&& out[n].count > 0
            } by {
                assert(out[n] == lines[n]@);
                assert(tally.count_of(tally.name_at(n)) == tally.count_at(n));
            }
            assert forall|a: int, b: int| 0 <= a < b < out.len() implies lex_lt(
                (#[trigger] out[a]).path.last(),
                (#[trigger] out[b]).path.last(),
            ) by {
                assert(out[a] == lines[a]@ && out[b] == lines[b]@);
                assert(lex_lt(tally.name_at(a), tally.name_at(b)));
            }
            assert forall|a: int, b: int| 0 <= a < b < out.len() implies (#[trigger] out[a]).path
                != (#[trigger] out[b]).path by {
                assert(lex_lt(out[a].path.last(), out[b].path.last()));
                lemma_lex_irreflexive(out[a].path.last());
            }
            assert forall|c: Seq<char>| #[trigger] count_under(e, p.push(c)) > 0 implies exists|
                n: int,
            |
                0 <= n < out.len() && (#[trigger] out[n]).path == p.push(c) by {
                assert(tally.count_of(c) == tallied(e, k as int, 0, p, c));
                let n = choose|n: int| 0 <= n < tally.size() && #[trigger] tally.name_at(n) == c;
                assert(out[n] == lines[n]@);
            }
        }
        lines
    }

    /// The children of the path that `prefix_path` names, with their
    /// counts. Fails exactly if the text is no facet path.
    pub fn aggregate(&self, prefix_path: &str) -> (r: Result<Vec<FacetCount>, EngineError>)
        ensures
            match r {
                Ok(lines) => valid_path_text(prefix_path@) && child_counts(
                    lines_of(lines@),
                    self@,
                    path_of_text(prefix_path@),
                ) && ascending_children(lines_of(lines@)),
                Err(e) => e == EngineError::UnknownPrefix && !valid_path_text(prefix_path@),
            },
    {
        match FacetPath::parse(prefix_path) {
            Some(prefix) => Ok(self.count_children(&prefix)),
            None => Err(EngineError::UnknownPrefix),
        }
    }
}

} // verus!
