use crate::path::valid_segment;
use crate::text::{lemma_lex_irreflexive, lemma_lex_total, lemma_lex_transitive, lex_less, lex_lt};
use vstd::prelude::*;

verus! {

/// The names stand in strictly ascending lexical order.
spec fn ascending_names(names: Seq<String>) -> bool {
    forall|i: int, j: int|
        0 <= i < j < names.len() ==> lex_lt((#[trigger] names[i])@, (#[trigger] names[j])@)
}

/// `x` is one of the names.
spec fn listed(names: Seq<String>, x: Seq<char>) -> bool {
    exists|i: int| 0 <= i < names.len() && (#[trigger] names[i])@ == x
}

/// A position at which `x` is listed, if it is listed.
spec fn place(names: Seq<String>, x: Seq<char>) -> int {
    choose|i: int| 0 <= i < names.len() && (#[trigger] names[i])@ == x
}

/// Ascending names are distinct.
proof fn lemma_names_distinct(names: Seq<String>, i: int, j: int)
    requires
        ascending_names(names),
        0 <= i < names.len(),
        0 <= j < names.len(),
        i != j,
    ensures
        names[i]@ != names[j]@,
{
    if i < j {
        assert(lex_lt(names[i]@, names[j]@));
        lemma_lex_irreflexive(names[i]@);
    } else {
        assert(lex_lt(names[j]@, names[i]@));
        lemma_lex_irreflexive(names[j]@);
    }
}

/// Looks `name` up among the ascending names: whether it is there, and
/// where it stands or would have to stand.
fn find_name(names: &Vec<String>, name: &String) -> (r: (bool, usize))
    requires
        ascending_names(names@),
    ensures
        r.1 <= names.len(),
        r.0 ==> r.1 < names.len() && names[r.1 as int]@ == name@,
        !r.0 ==> forall|i: int| 0 <= i < r.1 ==> lex_lt((#[trigger] names[i])@, name@),
        !r.0 ==> forall|i: int| r.1 <= i < names.len() ==> lex_lt(name@, (#[trigger] names[i])@),
{
    let mut lo: usize = 0;
    let mut hi: usize = names.len();
    while lo < hi
        invariant
            lo <= hi <= names.len(),
            ascending_names(names@),
            forall|i: int| 0 <= i < lo ==> lex_lt((#[trigger] names[i])@, name@),
            forall|i: int| hi <= i < names.len() ==> lex_lt(name@, (#[trigger] names[i])@),
        decreases hi - lo,
    {
        let mid: usize = lo + (hi - lo) / 2;
        if lex_less(names[mid].as_str(), name.as_str()) {
            proof {
                assert forall|i: int| 0 <= i < mid + 1 implies lex_lt(
                    (#[trigger] names[i])@,
                    name@,
                ) by {
                    if i < mid {
                        assert(lex_lt(names[i]@, names[mid as int]@));
                        lemma_lex_transitive(names[i]@, names[mid as int]@, name@);
                    }
                }
            }
            lo = mid + 1;
        } else if lex_less(name.as_str(), names[mid].as_str()) {
            proof {
                assert forall|i: int| mid <= i < names.len() implies lex_lt(
                    name@,
                    (#[trigger] names[i])@,
                ) by {
                    if i > mid {
                        assert(lex_lt(names[mid as int]@, names[i]@));
                        lemma_lex_transitive(name@, names[mid as int]@, names[i]@);
                    }
                }
            }
            hi = mid;
        } else {
            proof {
                lemma_lex_total(names[mid as int]@, name@);
            }
            return (true, mid);
        }
    }
    (false, lo)
}

/// Counts by name. The names are path segments and stand in ascending
/// lexical order; a name is listed from its first count on.
pub struct Tally {
    names: Vec<String>,
    counts: Vec<u64>,
}

impl Tally {
    /// The names are segments in ascending order, each with a count of at
    /// least 1.
    pub closed spec fn wf(self) -> bool {
        &&& self.names.len() == self.counts.len()
        &&& ascending_names(self.names@)
        &&& forall|i: int| 0 <= i < self.names.len() ==> valid_segment((#[trigger] self.names[i])@)
        &&& forall|i: int| 0 <= i < self.counts.len() ==> #[trigger] self.counts[i] >= 1
    }

    /// The number of names.
    pub closed spec fn size(self) -> nat {
        self.names.len() as nat
    }

    /// The name at a position.
    pub closed spec fn name_at(self, i: int) -> Seq<char> {
        self.names[i]@
    }

    /// The count at a position.
    pub closed spec fn count_at(self, i: int) -> u64 {
        self.counts[i]
    }

    /// The count of `x`: 0 if it is not listed.
    pub closed spec fn count_of(self, x: Seq<char>) -> nat {
        if listed(self.names@, x) {
            self.counts[place(self.names@, x)] as nat
        } else {
            0
        }
    }

    /// The count of the name at a position is the count at that position.
    proof fn lemma_count_at(self, i: int)
        requires
            self.wf(),
            0 <= i < self.names.len(),
        ensures
            self.count_of(self.names[i]@) == self.counts[i],
    {
        let x = self.names[i]@;
        assert(listed(self.names@, x));
        let k = place(self.names@, x);
        if k != i {
            lemma_names_distinct(self.names@, k, i);
        }
    }

    /// What the tally lists: each name once, in ascending order, with its
    /// count, and every name whose count is not 0.
    pub proof fn lemma_listing(self)
        requires
            self.wf(),
        ensures
            forall|i: int|
                0 <= i < self.size() ==> valid_segment(#[trigger] self.name_at(i))
                    && self.count_at(i) >= 1 && self.count_of(self.name_at(i)) == self.count_at(i),
            forall|i: int, j: int|
                0 <= i < j < self.size() ==> lex_lt(
                    #[trigger] self.name_at(i),
                    #[trigger] self.name_at(j),
                ),
            forall|x: Seq<char>|
                #[trigger] self.count_of(x) > 0 ==> exists|i: int|
                    0 <= i < self.size() && #[trigger] self.name_at(i) == x,
    {
        assert forall|i: int| 0 <= i < self.size() implies valid_segment(
            #[trigger] self.name_at(i),
        ) && self.count_at(i) >= 1 && self.count_of(self.name_at(i)) == self.count_at(i) by {
            self.lemma_count_at(i);
            assert(valid_segment(self.names[i]@));
            assert(self.counts[i] >= 1);
        }
        assert forall|x: Seq<char>| #[trigger] self.count_of(x) > 0 implies exists|i: int|
            0 <= i < self.size() && #[trigger] self.name_at(i) == x by {
            let i = place(self.names@, x);
            assert(self.name_at(i) == x);
        }
    }

    /// The tally without names.
    pub fn new() -> (r: Tally)
        ensures
            r.wf(),
            r.size() == 0,
            forall|x: Seq<char>| #[trigger] r.count_of(x) == 0,
    {
        Tally { names: Vec::new(), counts: Vec::new() }
    }

    /// The number of names.
    pub fn len(&self) -> (n: usize)
        ensures
            n == self.size(),
    {
        self.names.len()
    }

    /// The name at a position.
    pub fn name(&self, i: usize) -> (r: &String)
        requires
            self.wf(),
            i < self.size(),
        ensures
            r@ == self.name_at(i as int),
    {
        &self.names[i]
    }

    /// The count at a position.
    pub fn count(&self, i: usize) -> (r: u64)
        requires
            self.wf(),
            i < self.size(),
        ensures
            r == self.count_at(i as int),
    {
        self.counts[i]
    }

    /// Adds 1 to the count of `name`, which is listed from now on.
    pub fn bump(&mut self, name: &String)
        requires
            old(self).wf(),
            valid_segment(name@),
            old(self).count_of(name@) < u64::MAX,
        ensures
            final(self).wf(),
            forall|x: Seq<char>|
                #[trigger] final(self).count_of(x) == old(self).count_of(x) + if x == name@ {
                    1nat
                } else {
                    0nat
                },
    {
        let ghost before = *self;
        let found: (bool, usize) = find_name(&self.names, name);
        let at: usize = found.1;
        if found.0 {
            proof {
                before.lemma_count_at(at as int);
            }
            let bumped: u64 = self.counts[at] + 1;
            self.counts.set(at, bumped);
            proof {
                let after = *self;
                assert forall|x: Seq<char>| #[trigger]
                    after.count_of(x) == before.count_of(x) + if x == name@ {
                        1nat
                    } else {
                        0nat
                    } by {
                    if listed(after.names@, x) {
                        let k = place(after.names@, x);
                        after.lemma_count_at(k);
                        before.lemma_count_at(k);
                        if k != at {
                            lemma_names_distinct(after.names@, k, at as int);
                        }
                    }
                }
            }
        } else {
            proof {
                assert(!listed(before.names@, name@)) by {
                    if listed(before.names@, name@) {
                        let i = place(before.names@, name@);
                        lemma_lex_irreflexive(name@);
                    }
                }
            }
            self.names.insert(at, name.clone());
            self.counts.insert(at, 1);
            proof {
                let after = *self;
                assert forall|a: int, b: int| 0 <= a < b < after.names.len() implies lex_lt(
                    (#[trigger] after.names[a])@,
                    (#[trigger] after.names[b])@,
                ) by {
                    if a < at && b > at {
                        assert(after.names[a] == before.names[a]);
                        assert(after.names[b] == before.names[b - 1]);
                    } else if a < at && b < at {
                        assert(after.names[a] == before.names[a]);
                        assert(after.names[b] == before.names[b]);
                    } else if a > at {
                        assert(after.names[a] == before.names[a - 1]);
                        assert(after.names[b] == before.names[b - 1]);
                    } else if a == at {
                        assert(after.names[b] == before.names[b - 1]);
                    } else {
                        assert(after.names[a] == before.names[a]);
                    }
                }
                assert forall|i: int| 0 <= i < after.names.len() implies valid_segment(
                    (#[trigger] after.names[i])@,
                ) by {
                    if i < at {
                        assert(after.names[i] == before.names[i]);
                    } else if i > at {
                        assert(after.names[i] == before.names[i - 1]);
                    }
                }
                assert forall|i: int| 0 <= i < after.counts.len() implies #[trigger] after.counts[i]
                    >= 1 by {
                    if i < at {
                        assert(after.counts[i] == before.counts[i]);
                    } else if i > at {
                        assert(after.counts[i] == before.counts[i - 1]);
                    }
                }
                assert(after.wf());
                assert forall|x: Seq<char>| #[trigger]
                    after.count_of(x) == before.count_of(x) + if x == name@ {
                        1nat
                    } else {
                        0nat
                    } by {
                    if x == name@ {
                        assert(after.names[at as int]@ == x);
                        after.lemma_count_at(at as int);
                    } else if listed(before.names@, x) {
                        let i = place(before.names@, x);
                        before.lemma_count_at(i);
                        if i < at {
                            assert(after.names[i] == before.names[i]);
                            after.lemma_count_at(i);
                        } else {
                            assert(after.names[i + 1] == before.names[i]);
                            after.lemma_count_at(i + 1);
                        }
                    } else if listed(after.names@, x) {
                        let k = place(after.names@, x);
                        if k < at {
                            assert(after.names[k] == before.names[k]);
                        } else if k > at {
                            assert(after.names[k] == before.names[k - 1]);
                        }
                    }
                }
            }
        }
    }
}

} // verus!
