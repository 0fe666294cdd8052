use vstd::prelude::*;

verus! {

/// A path segment is a nonempty string without a slash.
pub open spec fn valid_segment(s: Seq<char>) -> bool {
    s.len() > 0 && forall|i: int| 0 <= i < s.len() ==> s[i] != '/'
}

/// A path is a sequence of segments, the root being the empty sequence.
pub open spec fn valid_path(p: Seq<Seq<char>>) -> bool {
    forall|i: int| 0 <= i < p.len() ==> valid_segment(#[trigger] p[i])
}

/// The pieces of `s` between its slashes, in order; one piece more than
/// there are slashes.
pub open spec fn split_text(s: Seq<char>) -> Seq<Seq<char>>
    decreases s.len(),
{
    if s.len() == 0 {
        seq![Seq::<char>::empty()]
    } else {
        let head = split_text(s.drop_last());
        if s.last() == '/' {
            head.push(Seq::<char>::empty())
        } else {
            head.drop_last().push(head.last().push(s.last()))
        }
    }
}

/// The segments that a text names: `/` names the root, and any other text
/// names what stands between the slashes after the leading one.
pub open spec fn path_of_text(t: Seq<char>) -> Seq<Seq<char>> {
    if t.len() <= 1 {
        Seq::<Seq<char>>::empty()
    } else {
        split_text(t.skip(1))
    }
}

/// A text is a facet path if it starts with a slash and, unless it is the
/// root `/`, no segment of it is empty.
pub open spec fn valid_path_text(t: Seq<char>) -> bool {
    t.len() >= 1 && t[0] == '/' && valid_path(path_of_text(t))
}

/// The segments of `p` with `sep` between them.
pub open spec fn joined(p: Seq<Seq<char>>, sep: char) -> Seq<char>
    decreases p.len(),
{
    if p.len() == 0 {
        Seq::<char>::empty()
    } else if p.len() == 1 {
        p[0]
    } else {
        joined(p.drop_last(), sep) + seq![sep] + p.last()
    }
}

/// The text of a path: a slash, then the segments with slashes between them.
pub open spec fn render(p: Seq<Seq<char>>) -> Seq<char> {
    seq!['/'] + joined(p, '/')
}

/// The key under which a path is reported: its segments with `|` between
/// them.
pub open spec fn key_of(p: Seq<Seq<char>>) -> Seq<char> {
    joined(p, '|')
}

/// `p` is `q` or an ancestor of `q`.
pub open spec fn is_prefix(p: Seq<Seq<char>>, q: Seq<Seq<char>>) -> bool {
    p.len() <= q.len() && forall|i: int| 0 <= i < p.len() ==> p[i] == q[i]
}

/// A path lies at or below the child `x` of `p` exactly if it lies strictly
/// below `p` and continues with `x`.
pub proof fn lemma_prefix_of_child(p: Seq<Seq<char>>, x: Seq<char>, f: Seq<Seq<char>>)
    ensures
        is_prefix(p.push(x), f) <==> (is_prefix(p, f) && p.len() < f.len() && f[p.len() as int]
            == x),
{
    let q = p.push(x);
    if is_prefix(p, f) && p.len() < f.len() && f[p.len() as int] == x {
        assert forall|i: int| 0 <= i < q.len() implies q[i] == f[i] by {
            if i < p.len() {
                assert(q[i] == p[i]);
            }
        }
    }
    if is_prefix(q, f) {
        assert forall|i: int| 0 <= i < p.len() implies p[i] == f[i] by {
            assert(q[i] == p[i]);
        }
        assert(q[p.len() as int] == x);
    }
}

/// The views of a sequence of strings.
pub open spec fn texts(v: Seq<String>) -> Seq<Seq<char>> {
    Seq::new(v.len(), |i: int| v[i]@)
}

/// A text without a slash is one piece.
pub proof fn lemma_split_plain(s: Seq<char>)
    requires
        forall|i: int| 0 <= i < s.len() ==> s[i] != '/',
    ensures
        split_text(s) == seq![s],
    decreases s.len(),
{
    if s.len() == 0 {
        assert(s =~= Seq::<char>::empty());
    } else {
        lemma_split_plain(s.drop_last());
        let head = split_text(s.drop_last());
        assert(head.drop_last() =~= Seq::<Seq<char>>::empty());
        assert(s.drop_last().push(s.last()) =~= s);
        assert(head.drop_last().push(head.last().push(s.last())) =~= seq![s]);
    }
}

/// A slash and a text without one add that text as a piece.
pub proof fn lemma_split_append(a: Seq<char>, b: Seq<char>)
    requires
        forall|i: int| 0 <= i < b.len() ==> b[i] != '/',
    ensures
        split_text(a + seq!['/'] + b) == split_text(a).push(b),
    decreases b.len(),
{
    let s = a + seq!['/'] + b;
    if b.len() == 0 {
        assert(s.drop_last() =~= a);
        assert(b =~= Seq::<char>::empty());
    } else {
        let shorter = b.drop_last();
        lemma_split_append(a, shorter);
        assert(s.drop_last() =~= a + seq!['/'] + shorter);
        assert(s.last() == b.last());
        let head = split_text(s.drop_last());
        assert(head.drop_last() =~= split_text(a));
        assert(shorter.push(b.last()) =~= b);
    }
}

/// The segments of a valid path, joined by slashes, split into those
/// segments again.
pub proof fn lemma_split_joined(p: Seq<Seq<char>>)
    requires
        valid_path(p),
        p.len() > 0,
    ensures
        split_text(joined(p, '/')) == p,
        joined(p, '/').len() > 0,
    decreases p.len(),
{
    assert(valid_segment(p[p.len() - 1]));
    if p.len() == 1 {
        assert(valid_segment(p[0]));
        lemma_split_plain(p[0]);
        assert(seq![p[0]] =~= p);
    } else {
        let head = p.drop_last();
        assert forall|i: int| 0 <= i < head.len() implies valid_segment(#[trigger] head[i]) by {
            assert(head[i] == p[i]);
        }
        lemma_split_joined(head);
        lemma_split_append(joined(head, '/'), p.last());
        assert(head.push(p.last()) =~= p);
    }
}

/// The pieces of a text, joined by slashes, are the text.
pub proof fn lemma_joined_split(s: Seq<char>)
    ensures
        joined(split_text(s), '/') == s,
        split_text(s).len() >= 1,
    decreases s.len(),
{
    if s.len() == 0 {
        assert(joined(split_text(s), '/') =~= s);
    } else {
        let shorter = s.drop_last();
        lemma_joined_split(shorter);
        let head = split_text(shorter);
        let c = s.last();
        assert(shorter.push(c) =~= s);
        if c == '/' {
            let now = head.push(Seq::<char>::empty());
            assert(now.drop_last() =~= head);
            assert(joined(now, '/') =~= s);
        } else {
            let now = head.drop_last().push(head.last().push(c));
            assert(now.drop_last() =~= head.drop_last());
            if head.len() == 1 {
                assert(joined(now, '/') =~= s);
            } else {
                assert(joined(now, '/') =~= joined(head, '/').push(c));
            }
        }
    }
}

/// The text of a valid path is a facet path, and reads back as that path.
pub proof fn law_text_of_path_reads_back(p: Seq<Seq<char>>)
    requires
        valid_path(p),
    ensures
        valid_path_text(render(p)),
        path_of_text(render(p)) == p,
{
    let t = render(p);
    if p.len() == 0 {
        assert(t =~= seq!['/']);
        assert(path_of_text(t) =~= p);
    } else {
        lemma_split_joined(p);
        assert(t.skip(1) =~= joined(p, '/'));
    }
}

/// A facet path text is the text of the path it names.
pub proof fn law_path_of_text_renders_back(t: Seq<char>)
    requires
        valid_path_text(t),
    ensures
        render(path_of_text(t)) == t,
{
    if t.len() == 1 {
        assert(render(path_of_text(t)) =~= t);
    } else {
        lemma_joined_split(t.skip(1));
        assert(seq!['/'] + t.skip(1) =~= t);
    }
}

/// A hierarchical facet path, such as `/subjects/history`.
#[derive(Debug)]
pub struct FacetPath {
    segments: Vec<String>,
}

impl View for FacetPath {
    type V = Seq<Seq<char>>;

    closed spec fn view(&self) -> Seq<Seq<char>> {
        texts(self.segments@)
    }
}

impl Clone for FacetPath {
    fn clone(&self) -> (r: Self)
        ensures
            r@ == self@,
    {
        proof {
            use_type_invariant(self);
        }
        let mut segments: Vec<String> = Vec::new();
        let mut i: usize = 0;
        while i < self.segments.len()
            invariant
                i <= self.segments.len(),
                segments.len() == i,
                forall|k: int| 0 <= k < i ==> segments[k]@ == self.segments[k]@,
            decreases self.segments.len() - i,
        {
            segments.push(self.segments[i].clone());
            i = i + 1;
        }
        assert(texts(segments@) =~= texts(self.segments@));
        FacetPath { segments }
    }
}

impl FacetPath {
    /// Every value of the type is a valid path.
    #[verifier::type_invariant]
    pub open spec fn wf(self) -> bool {
        valid_path(self@)
    }

    /// The root path `/`.
    pub fn root() -> (r: FacetPath)
        ensures
            r@ == Seq::<Seq<char>>::empty(),
    {
        let segments: Vec<String> = Vec::new();
        assert(texts(segments@) =~= Seq::<Seq<char>>::empty());
        FacetPath { segments }
    }

    /// Reads a path from its text. Succeeds exactly on the texts that are
    /// facet paths.
    pub fn parse(text: &str) -> (r: Option<FacetPath>)
        ensures
            match r {
                Some(p) => valid_path_text(text@) && p@ == path_of_text(text@),
                None => !valid_path_text(text@),
            },
    {
        let n: usize = text.unicode_len();
        if n == 0 {
            return None;
        }
        if text.get_char(0) != '/' {
            return None;
        }
        if n == 1 {
            return Some(FacetPath::root());
        }
        let mut segments: Vec<String> = Vec::new();
        let mut start: usize = 1;
        let mut complete: bool = true;
        let mut i: usize = 1;
        proof {
            assert(text@.subrange(1, 1) =~= Seq::<char>::empty());
            assert(texts(segments@).push(text@.subrange(1, 1)) =~= seq![Seq::<char>::empty()]);
        }
        while i < n
            invariant
                n == text@.len(),
                1 <= start <= i <= n,
                split_text(text@.subrange(1, i as int)) == texts(segments@).push(
                    text@.subrange(start as int, i as int),
                ),
                forall|j: int| start <= j < i ==> text@[j] != '/',
                forall|k: int, j: int|
                    0 <= k < segments.len() && 0 <= j < segments[k]@.len() ==> segments[k]@[j]
                        != '/',
                complete <==> forall|k: int| 0 <= k < segments.len() ==> segments[k]@.len() > 0,
            decreases n - i,
        {
            let c: char = text.get_char(i);
            proof {
                let whole = text@.subrange(1, i + 1);
                assert(whole.drop_last() =~= text@.subrange(1, i as int));
                assert(whole.last() == c);
                let head = texts(segments@).push(text@.subrange(start as int, i as int));
                assert(head.drop_last() =~= texts(segments@));
                assert(head.last() == text@.subrange(start as int, i as int));
                assert(text@.subrange(start as int, i as int).push(c) =~= text@.subrange(
                    start as int,
                    i + 1,
                ));
                assert(text@.subrange(i + 1, i + 1) =~= Seq::<char>::empty());
            }
            if c == '/' {
                let piece: String = text.substring_char(start, i).to_owned();
                let ghost before = segments@;
                segments.push(piece);
                proof {
                    assert(texts(segments@) =~= texts(before).push(
                        text@.subrange(start as int, i as int),
                    ));
                    assert(forall|k: int| 0 <= k < before.len() ==> segments[k] == before[k]);
                    assert(segments[before.len() as int]@.len() == i - start);
                }
                if start == i {
                    complete = false;
                }
                start = i + 1;
            }
            i = i + 1;
        }
        proof {
            assert(text@.subrange(1, n as int) =~= text@.skip(1));
        }
        let last: String = text.substring_char(start, n).to_owned();
        let ghost before = segments@;
        segments.push(last);
        proof {
            assert(texts(segments@) =~= texts(before).push(text@.subrange(start as int, n as int)));
            assert(texts(segments@) == path_of_text(text@));
        }
        if complete && start < n {
            assert(valid_path(texts(segments@))) by {
                assert forall|k: int| 0 <= k < segments.len() implies valid_segment(
                    #[trigger] texts(segments@)[k],
                ) by {
                    if k < before.len() {
                        assert(segments[k] == before[k]);
                    }
                }
            }
            Some(FacetPath { segments })
        } else {
            proof {
                let p = path_of_text(text@);
                if !complete {
                    let k = choose|k: int| 0 <= k < before.len() && !(before[k]@.len() > 0);
                    assert(segments[k] == before[k]);
                    assert(!valid_segment(p[k]));
                } else {
                    assert(!valid_segment(p[p.len() - 1]));
                }
            }
            None
        }
    }

    /// The number of segments; 0 for the root.
    pub fn depth(&self) -> (n: usize)
        ensures
            n == self@.len(),
    {
        self.segments.len()
    }

    /// The segment at position `i`, counted from the root.
    pub fn segment(&self, i: usize) -> (s: &String)
        requires
            i < self@.len(),
        ensures
            s@ == self@[i as int],
            valid_segment(s@),
    {
        proof {
            use_type_invariant(self);
        }
        &self.segments[i]
    }

    /// The segment by which this path continues below `prefix`, if it lies
    /// strictly below it.
    pub fn segment_below(&self, prefix: &FacetPath) -> (r: Option<&String>)
        ensures
            match r {
                Some(s) => is_prefix(prefix@, self@) && prefix@.len() < self@.len() && s@
                    == self@[prefix@.len() as int] && valid_segment(s@),
                None => !(is_prefix(prefix@, self@) && prefix@.len() < self@.len()),
            },
    {
        if prefix.segments.len() < self.segments.len() && prefix.is_prefix_of(self) {
            Some(self.segment(prefix.segments.len()))
        } else {
            None
        }
    }

    /// The path one level below this one, at a valid segment.
    pub fn extend(&self, segment: &str) -> (r: FacetPath)
        requires
            valid_segment(segment@),
        ensures
            r@ == self@.push(segment@),
    {
        let copy: FacetPath = self.clone();
        proof {
            use_type_invariant(&copy);
        }
        let mut segments: Vec<String> = copy.segments;
        let ghost before = segments@;
        segments.push(segment.to_owned());
        proof {
            assert(texts(segments@) =~= texts(before).push(segment@));
        }
        FacetPath { segments }
    }

    /// Whether this path is `other` or one of its ancestors.
    pub fn is_prefix_of(&self, other: &FacetPath) -> (r: bool)
        ensures
            r == is_prefix(self@, other@),
    {
        if self.segments.len() > other.segments.len() {
            return false;
        }
        let mut i: usize = 0;
        while i < self.segments.len()
            invariant
                i <= self.segments.len() <= other.segments.len(),
                forall|k: int| 0 <= k < i ==> self@[k] == other@[k],
            decreases self.segments.len() - i,
        {
            if self.segments[i] != other.segments[i] {
                assert(self@[i as int] != other@[i as int]);
                return false;
            }
            i = i + 1;
        }
        true
    }

    /// Whether the two paths have the same segments.
    pub fn same(&self, other: &FacetPath) -> (r: bool)
        ensures
            r == (self@ == other@),
    {
        let r: bool = self.segments.len() == other.segments.len() && self.is_prefix_of(other);
        proof {
            assert(self@.len() == self.segments.len());
            assert(other@.len() == other.segments.len());
            if r {
                assert(self@ =~= other@);
            }
        }
        r
    }

    /// The path one level below this one, at `segment`. There is none if
    /// `segment` is empty or holds a slash.
    pub fn child(&self, segment: &str) -> (r: Option<FacetPath>)
        ensures
            match r {
                Some(p) => valid_segment(segment@) && p@ == self@.push(segment@),
                None => !valid_segment(segment@),
            },
    {
        let n: usize = segment.unicode_len();
        if n == 0 {
            return None;
        }
        let mut i: usize = 0;
        while i < n
            invariant
                n == segment@.len(),
                i <= n,
                forall|j: int| 0 <= j < i ==> segment@[j] != '/',
            decreases n - i,
        {
            if segment.get_char(i) == '/' {
                return None;
            }
            i = i + 1;
        }
        Some(self.extend(segment))
    }

    /// The text of the path, which `parse` reads back.
    pub fn to_text(&self) -> (t: String)
        ensures
            t@ == render(self@),
            valid_path_text(t@),
            path_of_text(t@) == self@,
    {
        proof {
            use_type_invariant(self);
            law_text_of_path_reads_back(self@);
        }
        let mut t: String = "/".to_owned();
        proof {
            reveal_strlit("/");
            assert(t@ =~= seq!['/'] + joined(self@.take(0), '/'));
        }
        let mut i: usize = 0;
        while i < self.segments.len()
            invariant
                i <= self.segments.len(),
                t@ == seq!['/'] + joined(self@.take(i as int), '/'),
            decreases self.segments.len() - i,
        {
            if i > 0 {
                t.append("/");
            }
            t.append(self.segments[i].as_str());
            proof {
                reveal_strlit("/");
                let now = self@.take(i + 1);
                assert(now.drop_last() =~= self@.take(i as int));
                assert(now.last() == self.segments[i as int]@);
                if i == 0 {
                    assert(now[0] == self.segments[0]@);
                    assert(t@ =~= seq!['/'] + joined(now, '/'));
                } else {
                    assert(t@ =~= seq!['/'] + joined(now, '/'));
                }
            }
            i = i + 1;
        }
        proof {
            assert(self@.take(self@.len() as int) =~= self@);
        }
        t
    }

    /// The key under which the path is reported.
    pub fn key(&self) -> (t: String)
        ensures
            t@ == key_of(self@),
    {
        let mut t: String = String::new();
        proof {
            assert(t@ =~= joined(self@.take(0), '|'));
        }
        let mut i: usize = 0;
        while i < self.segments.len()
            invariant
                i <= self.segments.len(),
                t@ == joined(self@.take(i as int), '|'),
            decreases self.segments.len() - i,
        {
            if i > 0 {
                t.append("|");
            }
            t.append(self.segments[i].as_str());
            proof {
                reveal_strlit("|");
                let now = self@.take(i + 1);
                assert(now.drop_last() =~= self@.take(i as int));
                assert(now.last() == self.segments[i as int]@);
                if i == 0 {
                    assert(now[0] == self.segments[0]@);
                }
                assert(t@ =~= joined(now, '|'));
            }
            i = i + 1;
        }
        proof {
            assert(self@.take(self@.len() as int) =~= self@);
        }
        t
    }
}

} // verus!
