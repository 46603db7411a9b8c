//! The collector and the build entry point: fold the topic descriptors and
//! edge files of a list of course directories into assignment counts, an
//! edge list and a node set, then assemble the distance table and the counts
//! into the index.

use vstd::prelude::*;

use crate::parse::descriptor_of;
use crate::parse::parse_descriptor;
use crate::parse::parse_edges_text;
use crate::parse::text_edges;
use crate::seqs::distinct;
use crate::table::find_index;
use crate::table::floyd_warshall;
use crate::table::table_distance;
use crate::table::DistTable;

verus! {

/// The contents of one course directory, as plain values: the text of every
/// file under its `topics` subdirectory, and the text of its edge file when
/// one exists.
pub struct CourseData {
    pub topic_docs: Vec<String>,
    pub edges_text: Option<String>,
}

impl CourseData {
    /// The descriptor texts of this course.
    pub open spec fn docs(self) -> Seq<Seq<char>> {
        self.topic_docs.deep_view()
    }

    /// The edge-file text of this course, when present.
    pub open spec fn csv(self) -> Option<Seq<char>> {
        self.edges_text.deep_view()
    }
}

/// The build fails on a topic descriptor that is not a structured document.
#[derive(Debug, PartialEq, Eq)]
pub enum BuildError {
    /// Positions (course, then file within the course's `topics` listing) of
    /// the first descriptor that could not be parsed.
    MalformedDescriptor { course: usize, doc: usize },
}

/// What the collector accumulates: the node set (in first-appearance order),
/// the edge list, and the assignment counts keyed by topic id.
#[derive(Debug)]
pub struct Collected {
    pub nodes: Vec<String>,
    pub edges: Vec<(String, String)>,
    pub counts: Vec<(String, usize)>,
}

/// A descriptor text that is not a structured document at all.
pub open spec fn doc_bad(text: Seq<char>) -> bool {
    descriptor_of(text) is Err
}

/// The assignment-count entry a descriptor contributes, if any.
pub open spec fn doc_entry(text: Seq<char>) -> Option<(Seq<char>, usize)> {
    match descriptor_of(text) {
        Ok(e) => e,
        Err(_) => None,
    }
}

/// Position of the first malformed descriptor of one course, if any.
pub open spec fn course_first_bad(docs: Seq<Seq<char>>) -> Option<int>
    decreases docs.len(),
{
    if docs.len() == 0 {
        None
    } else {
        match course_first_bad(docs.drop_last()) {
            Some(i) => Some(i),
            None => if doc_bad(docs.last()) {
                Some(docs.len() - 1)
            } else {
                None
            },
        }
    }
}

/// Position of the first malformed descriptor over all courses, if any.
pub open spec fn first_bad(courses: Seq<CourseData>) -> Option<(int, int)>
    decreases courses.len(),
{
    if courses.len() == 0 {
        None
    } else {
        match first_bad(courses.drop_last()) {
            Some(p) => Some(p),
            None => match course_first_bad(courses.last().docs()) {
                Some(d) => Some((courses.len() - 1, d)),
                None => None,
            },
        }
    }
}

/// Set the count for `id` to `n`: in place when the key exists, appended
/// otherwise. The last writer wins.
pub open spec fn upsert(m: Seq<(Seq<char>, usize)>, id: Seq<char>, n: usize) -> Seq<
    (Seq<char>, usize),
>
    decreases m.len(),
{
    if m.len() == 0 {
        seq![(id, n)]
    } else if m[0].0 == id {
        seq![(id, n)] + m.drop_first()
    } else {
        seq![m[0]] + upsert(m.drop_first(), id, n)
    }
}

/// The count recorded for `id`, if any.
pub open spec fn lookup(m: Seq<(Seq<char>, usize)>, id: Seq<char>) -> Option<usize>
    decreases m.len(),
{
    if m.len() == 0 {
        None
    } else if m[0].0 == id {
        Some(m[0].1)
    } else {
        lookup(m.drop_first(), id)
    }
}

/// The counts after folding one course's descriptors into `acc`, in order.
pub open spec fn docs_counts(acc: Seq<(Seq<char>, usize)>, docs: Seq<Seq<char>>) -> Seq<
    (Seq<char>, usize),
>
    decreases docs.len(),
{
    if docs.len() == 0 {
        acc
    } else {
        let p = docs_counts(acc, docs.drop_last());
        match doc_entry(docs.last()) {
            Some(e) => upsert(p, e.0, e.1),
            None => p,
        }
    }
}

/// The assignment counts of a whole course list.
pub open spec fn spec_counts(courses: Seq<CourseData>) -> Seq<(Seq<char>, usize)>
    decreases courses.len(),
{
    if courses.len() == 0 {
        Seq::empty()
    } else {
        docs_counts(spec_counts(courses.drop_last()), courses.last().docs())
    }
}

/// The edges one course contributes.
pub open spec fn course_edges(c: CourseData) -> Seq<(Seq<char>, Seq<char>)> {
    match c.csv() {
        Some(t) => text_edges(t),
        None => Seq::empty(),
    }
}

/// The edge list of a whole course list, in order.
pub open spec fn spec_edges(courses: Seq<CourseData>) -> Seq<(Seq<char>, Seq<char>)>
    decreases courses.len(),
{
    if courses.len() == 0 {
        Seq::empty()
    } else {
        spec_edges(courses.drop_last()) + course_edges(courses.last())
    }
}

/// Append a node unless it is already known.
pub open spec fn add_node(ns: Seq<Seq<char>>, x: Seq<char>) -> Seq<Seq<char>> {
    if ns.contains(x) {
        ns
    } else {
        ns.push(x)
    }
}

/// The node set after folding the endpoints of every edge into `ns`.
pub open spec fn nodes_of(ns: Seq<Seq<char>>, edges: Seq<(Seq<char>, Seq<char>)>) -> Seq<Seq<char>>
    decreases edges.len(),
{
    if edges.len() == 0 {
        ns
    } else {
        let p = nodes_of(ns, edges.drop_last());
        add_node(add_node(p, edges.last().0), edges.last().1)
    }
}

/// The node set of a whole course list: exactly the ids that appear in some
/// edge, in first-appearance order.
pub open spec fn spec_nodes(courses: Seq<CourseData>) -> Seq<Seq<char>> {
    nodes_of(Seq::empty(), spec_edges(courses))
}

proof fn lemma_add_node(ns: Seq<Seq<char>>, x: Seq<char>, y: Seq<char>)
    requires
        distinct(ns),
    ensures
        distinct(add_node(ns, x)),
        add_node(ns, x).contains(y) <==> ns.contains(y) || y == x,
{
    if !ns.contains(x) {
        let r = ns.push(x);
        assert forall|t: int| 0 <= t < ns.len() implies ns[t] != x by {
            if ns[t] == x {
                assert(ns.contains(x));
            }
        }
        assert forall|p: int, q: int| 0 <= p < q < r.len() implies r[p] != r[q] by {
            if q < ns.len() {
            } else {
                assert(r[q] == x && r[p] == ns[p]);
            }
        }
        if r.contains(y) {
            let w = choose|w: int| 0 <= w < r.len() && r[w] == y;
            if w < ns.len() {
                assert(ns.contains(y));
            }
        }
        if ns.contains(y) {
            let w = choose|w: int| 0 <= w < ns.len() && ns[w] == y;
            assert(r[w] == y);
            assert(r.contains(y));
        }
        if y == x {
            assert(r[ns.len() as int] == y);
            assert(r.contains(y));
        }
    }
}

proof fn lemma_nodes_of(ns: Seq<Seq<char>>, edges: Seq<(Seq<char>, Seq<char>)>, y: Seq<char>)
    requires
        distinct(ns),
    ensures
        distinct(nodes_of(ns, edges)),
        nodes_of(ns, edges).contains(y) <==> ns.contains(y) || exists|i: int|
            0 <= i < edges.len() && ((#[trigger] edges[i]).0 == y || edges[i].1 == y),
    decreases edges.len(),
{
    if edges.len() > 0 {
        let rest = edges.drop_last();
        let e = edges.last();
        lemma_nodes_of(ns, rest, y);
        let p = nodes_of(ns, rest);
        lemma_add_node(p, e.0, y);
        lemma_add_node(add_node(p, e.0), e.1, y);
        if nodes_of(ns, edges).contains(y) && !ns.contains(y) {
            if p.contains(y) {
                let i = choose|i: int|
                    0 <= i < rest.len() && ((#[trigger] rest[i]).0 == y || rest[i].1 == y);
                assert(edges[i].0 == y || edges[i].1 == y);
            } else {
                assert(edges[edges.len() - 1].0 == y || edges[edges.len() - 1].1 == y);
            }
        }
        if exists|i: int| 0 <= i < edges.len() && ((#[trigger] edges[i]).0 == y || edges[i].1 == y) {
            let i = choose|i: int|
                0 <= i < edges.len() && ((#[trigger] edges[i]).0 == y || edges[i].1 == y);
            if i < rest.len() {
                assert(rest[i] == edges[i]);
            }
        }
    }
}

proof fn lemma_upsert_found(m: Seq<(Seq<char>, usize)>, id: Seq<char>, n: usize, i: int)
    requires
        0 <= i < m.len(),
        m[i].0 == id,
        forall|t: int| 0 <= t < i ==> m[t].0 != id,
    ensures
        upsert(m, id, n) =~= m.update(i, (id, n)),
    decreases m.len(),
{
    if i == 0 {
        assert(upsert(m, id, n) =~= m.update(0, (id, n)));
    } else {
        let rest = m.drop_first();
        assert forall|t: int| 0 <= t < i - 1 implies rest[t].0 != id by {
            assert(rest[t] == m[t + 1]);
        }
        assert(rest[i - 1] == m[i]);
        lemma_upsert_found(rest, id, n, i - 1);
        assert(upsert(m, id, n) =~= m.update(i, (id, n)));
    }
}

proof fn lemma_upsert_absent(m: Seq<(Seq<char>, usize)>, id: Seq<char>, n: usize)
    requires
        forall|t: int| 0 <= t < m.len() ==> (#[trigger] m[t]).0 != id,
    ensures
        upsert(m, id, n) =~= m.push((id, n)),
    decreases m.len(),
{
    if m.len() > 0 {
        let rest = m.drop_first();
        assert forall|t: int| 0 <= t < rest.len() implies (#[trigger] rest[t]).0 != id by {
            assert(rest[t] == m[t + 1]);
        }
        lemma_upsert_absent(rest, id, n);
        assert(upsert(m, id, n) =~= m.push((id, n)));
    }
}

proof fn lemma_lookup_found(m: Seq<(Seq<char>, usize)>, id: Seq<char>, i: int)
    requires
        0 <= i < m.len(),
        m[i].0 == id,
        forall|t: int| 0 <= t < i ==> m[t].0 != id,
    ensures
        lookup(m, id) == Some(m[i].1),
    decreases m.len(),
{
    if i > 0 {
        let rest = m.drop_first();
        assert forall|t: int| 0 <= t < i - 1 implies rest[t].0 != id by {
            assert(rest[t] == m[t + 1]);
        }
        assert(rest[i - 1] == m[i]);
        lemma_lookup_found(rest, id, i - 1);
    }
}

proof fn lemma_lookup_absent(m: Seq<(Seq<char>, usize)>, id: Seq<char>)
    requires
        forall|t: int| 0 <= t < m.len() ==> (#[trigger] m[t]).0 != id,
    ensures
        lookup(m, id) is None,
    decreases m.len(),
{
    if m.len() > 0 {
        let rest = m.drop_first();
        assert forall|t: int| 0 <= t < rest.len() implies (#[trigger] rest[t]).0 != id by {
            assert(rest[t] == m[t + 1]);
        }
        lemma_lookup_absent(rest, id);
    }
}

/// A prefix that already holds a malformed descriptor settles the whole
/// course's answer.
proof fn lemma_course_first_bad_grow(docs: Seq<Seq<char>>, i: int)
    requires
        0 <= i <= docs.len(),
        course_first_bad(docs.subrange(0, i)) is Some,
    ensures
        course_first_bad(docs) == course_first_bad(docs.subrange(0, i)),
    decreases docs.len() - i,
{
    if i == docs.len() {
        assert(docs.subrange(0, i) =~= docs);
    } else {
        assert(docs.subrange(0, i + 1).drop_last() =~= docs.subrange(0, i));
        assert(course_first_bad(docs.subrange(0, i + 1)) == course_first_bad(docs.subrange(0, i)));
        lemma_course_first_bad_grow(docs, i + 1);
    }
}

/// A course prefix that already holds a malformed descriptor settles the
/// whole build's answer.
proof fn lemma_first_bad_grow(courses: Seq<CourseData>, i: int)
    requires
        0 <= i <= courses.len(),
        first_bad(courses.subrange(0, i)) is Some,
    ensures
        first_bad(courses) == first_bad(courses.subrange(0, i)),
    decreases courses.len() - i,
{
    if i == courses.len() {
        assert(courses.subrange(0, i) =~= courses);
    } else {
        assert(courses.subrange(0, i + 1).drop_last() =~= courses.subrange(0, i));
        assert(first_bad(courses.subrange(0, i + 1)) == first_bad(courses.subrange(0, i)));
        lemma_first_bad_grow(courses, i + 1);
    }
}

/// Set the count for `id` in the accumulator, last writer winning.
fn upsert_count(counts: &mut Vec<(String, usize)>, id: String, n: usize)
    ensures
        final(counts).deep_view() =~= upsert(old(counts).deep_view(), id@, n),
{
    let ghost m = old(counts).deep_view();
    let mut i: usize = 0;
    while i < counts.len()
        invariant
            i <= counts@.len(),
            counts@ == old(counts)@,
            m == old(counts).deep_view(),
            m.len() == counts@.len(),
            forall|t: int| 0 <= t < i ==> (#[trigger] m[t]).0 != id@,
        decreases counts@.len() - i,
    {
        assert(m[i as int] == (counts@[i as int].0@, counts@[i as int].1));
        if counts[i].0.eq(&id) {
            proof {
                lemma_upsert_found(m, id@, n, i as int);
            }
            counts.set(i, (id, n));
            assert(counts.deep_view() =~= m.update(i as int, (id@, n)));
            return;
        }
        i += 1;
    }
    proof {
        lemma_upsert_absent(m, id@, n);
    }
    counts.push((id, n));
    assert(counts.deep_view() =~= m.push((id@, n)));
}

/// Append the node unless it is already known.
fn add_node_exec(nodes: &mut Vec<String>, x: &String)
    requires
        distinct(old(nodes).deep_view()),
    ensures
        final(nodes).deep_view() =~= add_node(old(nodes).deep_view(), x@),
        distinct(final(nodes).deep_view()),
{
    proof {
        lemma_add_node(old(nodes).deep_view(), x@, x@);
    }
    match find_index(nodes, x) {
        Some(_) => {
        },
        None => {
            nodes.push(x.clone());
            assert(nodes.deep_view() =~= old(nodes).deep_view().push(x@));
        },
    }
}

/// Scan the course list, in order: fold every well-formed descriptor into
/// the assignment counts (skipping documents without both fields), append
/// every declared edge, and record every endpoint once. Fails on the first
/// descriptor that is not a structured document, with its position.
pub fn collect(courses: &Vec<CourseData>) -> (r: Result<Collected, BuildError>)
    ensures
        (match r {
            Ok(col) => {
                &&& first_bad(courses@) is None
                &&& col.counts.deep_view() == spec_counts(courses@)
                &&& col.edges.deep_view() == spec_edges(courses@)
                &&& col.nodes.deep_view() == spec_nodes(courses@)
                &&& distinct(col.nodes.deep_view())
            },
            Err(BuildError::MalformedDescriptor { course, doc }) => first_bad(courses@) == Some(
                (course as int, doc as int),
            ),
        }),
{
    let ghost cs = courses@;
    let mut counts: Vec<(String, usize)> = Vec::new();
    let mut edges: Vec<(String, String)> = Vec::new();
    let mut nodes: Vec<String> = Vec::new();
    let mut c: usize = 0;
    while c < courses.len()
        invariant
            c <= cs.len(),
            cs == courses@,
            first_bad(cs.subrange(0, c as int)) is None,
            counts.deep_view() == spec_counts(cs.subrange(0, c as int)),
            edges.deep_view() == spec_edges(cs.subrange(0, c as int)),
            nodes.deep_view() == nodes_of(Seq::empty(), edges.deep_view()),
            distinct(nodes.deep_view()),
        decreases cs.len() - c,
    {
        let ghost docs = cs[c as int].docs();
        let ghost acc = spec_counts(cs.subrange(0, c as int));
        let cd = &courses[c];
        let ndocs = cd.topic_docs.len();
        assert(ndocs == docs.len());
        let mut d: usize = 0;
        while d < ndocs
            invariant
                c < cs.len(),
                cs == courses@,
                cd == &courses@[c as int],
                docs == cs[c as int].docs(),
                acc == spec_counts(cs.subrange(0, c as int)),
                first_bad(cs.subrange(0, c as int)) is None,
                d <= ndocs,
                ndocs == docs.len(),
                course_first_bad(docs.subrange(0, d as int)) is None,
                counts.deep_view() == docs_counts(acc, docs.subrange(0, d as int)),
            decreases ndocs - d,
        {
            assert(docs[d as int] == cd.topic_docs@[d as int]@);
            let ghost dpre = docs.subrange(0, d as int);
            proof {
                assert(docs.subrange(0, d + 1).drop_last() =~= dpre);
                assert(docs.subrange(0, d + 1).last() == docs[d as int]);
            }
            match parse_descriptor(cd.topic_docs[d].as_str()) {
                Err(()) => {
                    proof {
                        assert(doc_bad(docs[d as int]));
                        assert(course_first_bad(docs.subrange(0, d + 1)) == Some(d as int));
                        lemma_course_first_bad_grow(docs, d + 1);
                        assert(course_first_bad(docs) == Some(d as int));
                        assert(cs.subrange(0, c + 1).drop_last() =~= cs.subrange(0, c as int));
                        assert(cs.subrange(0, c + 1).last() == cs[c as int]);
                        assert(first_bad(cs.subrange(0, c + 1)) == Some((c as int, d as int)));
                        lemma_first_bad_grow(cs, c + 1);
                    }
                    return Err(BuildError::MalformedDescriptor { course: c, doc: d });
                },
                Ok(Some((id, n))) => {
                    proof {
                        assert(doc_entry(docs[d as int]) == Some((id@, n)));
                        assert(!doc_bad(docs[d as int]));
                        assert(course_first_bad(docs.subrange(0, d + 1)) is None);
                    }
                    upsert_count(&mut counts, id, n);
                    assert(counts.deep_view() == docs_counts(acc, docs.subrange(0, d + 1)));
                },
                Ok(None) => {
                    proof {
                        assert(doc_entry(docs[d as int]) is None);
                        assert(!doc_bad(docs[d as int]));
                        assert(course_first_bad(docs.subrange(0, d + 1)) is None);
                        assert(counts.deep_view() == docs_counts(acc, docs.subrange(0, d + 1)));
                    }
                },
            }
            d += 1;
        }
        proof {
            assert(docs.subrange(0, ndocs as int) =~= docs);
            assert(course_first_bad(docs) is None);
            assert(counts.deep_view() == docs_counts(acc, docs));
        }
        let ghost epre = edges.deep_view();
        match &cd.edges_text {
            Some(text) => {
                assert(cd.csv() == Some(text@));
                let es = parse_edges_text(text.as_str());
                let ghost esd = es.deep_view();
                assert(esd == text_edges(text@));
                let nes = es.len();
                let mut t: usize = 0;
                while t < nes
                    invariant
                        t <= nes,
                        nes == esd.len(),
                        esd == es.deep_view(),
                        es@.len() == esd.len(),
                        edges.deep_view() == epre + esd.subrange(0, t as int),
                        nodes.deep_view() == nodes_of(Seq::empty(), edges.deep_view()),
                        distinct(nodes.deep_view()),
                    decreases nes - t,
                {
                    assert(esd[t as int] == (es@[t as int].0@, es@[t as int].1@));
                    let ea = es[t].0.clone();
                    let eb = es[t].1.clone();
                    assert(ea@ == esd[t as int].0 && eb@ == esd[t as int].1);
                    add_node_exec(&mut nodes, &ea);
                    add_node_exec(&mut nodes, &eb);
                    let ghost eprior = edges.deep_view();
                    let ghost epriorv = edges@;
                    edges.push((ea, eb));
                    proof {
                        let full = epre + esd.subrange(0, t + 1);
                        assert(edges@ == epriorv.push((ea, eb)));
                        assert forall|q: int| 0 <= q < edges.deep_view().len() implies edges.deep_view()[q]
                            == full[q] by {
                            assert(edges.deep_view()[q] == edges@[q].deep_view());
                            if q < epriorv.len() {
                                assert(edges@[q] == epriorv[q]);
                                assert(eprior[q] == epriorv[q].deep_view());
                                assert(eprior[q] == (epre + esd.subrange(0, t as int))[q]);
                            } else {
                                assert(edges@[q] == (ea, eb));
                                assert(edges@[q].deep_view() == (ea@, eb@));
                                assert(full[q] == esd[t as int]);
                            }
                        }
                        assert(edges.deep_view().len() == full.len());
                        assert(edges.deep_view() =~= full);
                        assert(full.drop_last() =~= epre + esd.subrange(0, t as int));
                        assert(full.last() == esd[t as int]);
                        assert(nodes.deep_view() == nodes_of(Seq::empty(), edges.deep_view()));
                    }
                    t += 1;
                }
                proof {
                    assert(esd.subrange(0, nes as int) =~= esd);
                    assert(edges.deep_view() == epre + course_edges(cs[c as int]));
                }
            },
            None => {
                proof {
                    assert(cd.csv() is None);
                    assert(edges.deep_view() =~~= epre + course_edges(cs[c as int]));
                }
            },
        }
        proof {
            assert(cs.subrange(0, c + 1).drop_last() =~= cs.subrange(0, c as int));
            assert(cs.subrange(0, c + 1).last() == cs[c as int]);
            assert(first_bad(cs.subrange(0, c + 1)) is None);
            assert(counts.deep_view() == spec_counts(cs.subrange(0, c + 1)));
            assert(edges.deep_view() == spec_edges(cs.subrange(0, c + 1)));
        }
        c += 1;
    }
    proof {
        assert(cs.subrange(0, cs.len() as int) =~= cs);
    }
    Ok(Collected { nodes, edges, counts })
}

/// The finished index: the distance table over every topic that appears in
/// an edge, and the assignment counts read from the descriptors.
#[derive(Debug)]
pub struct Index {
    pub dist: DistTable,
    pub counts: Vec<(String, usize)>,
}

impl Index {
    /// The assignment count recorded for `id`, if any.
    pub fn assignment_count(&self, id: &String) -> (r: Option<usize>)
        ensures
            r == lookup(self.counts.deep_view(), id@),
    {
        let ghost m = self.counts.deep_view();
        let mut i: usize = 0;
        while i < self.counts.len()
            invariant
                i <= self.counts@.len(),
                m == self.counts.deep_view(),
                m.len() == self.counts@.len(),
                forall|t: int| 0 <= t < i ==> (#[trigger] m[t]).0 != id@,
            decreases self.counts@.len() - i,
        {
            assert(m[i as int] == (self.counts@[i as int].0@, self.counts@[i as int].1));
            if self.counts[i].0.eq(id) {
                proof {
                    lemma_lookup_found(m, id@, i as int);
                }
                return Some(self.counts[i].1);
            }
            i += 1;
        }
        proof {
            lemma_lookup_absent(m, id@);
        }
        None
    }
}

/// Build the index for the given course contents: collect nodes, edges and
/// counts, solve all-pairs shortest paths, and package the two results.
/// Fails exactly on the first malformed topic descriptor, with its position.
pub fn build_index(courses: &Vec<CourseData>) -> (r: Result<Index, BuildError>)
    ensures
        (match r {
            Ok(idx) => {
                &&& first_bad(courses@) is None
                &&& idx.dist.wf()
                &&& idx.dist.nodes_view() == spec_nodes(courses@)
                &&& forall|x: Seq<char>, y: Seq<char>| #[trigger] idx.dist.spec_distance(x, y)
                    == table_distance(spec_nodes(courses@), spec_edges(courses@), x, y)
                &&& idx.counts.deep_view() == spec_counts(courses@)
            },
            Err(BuildError::MalformedDescriptor { course, doc }) => first_bad(courses@) == Some(
                (course as int, doc as int),
            ),
        }),
{
    let col = match collect(courses) {
        Ok(col) => col,
        Err(e) => {
            return Err(e);
        },
    };
    let dist = floyd_warshall(&col.nodes, &col.edges);
    Ok(Index { dist, counts: col.counts })
}

/// A topic is a key of the distance table exactly when it appears as an
/// endpoint of some collected edge; in particular a topic that appears in no
/// edge is never a key, even when it has an assignment count.
pub proof fn lemma_nodes_are_edge_endpoints(courses: Seq<CourseData>, y: Seq<char>)
    ensures
        spec_nodes(courses).contains(y) <==> exists|i: int|
            0 <= i < spec_edges(courses).len() && ((#[trigger] spec_edges(courses)[i]).0 == y
                || spec_edges(courses)[i].1 == y),
{
    lemma_nodes_of(Seq::empty(), spec_edges(courses), y);
}

/// Building is deterministic: two course lists with the same file contents
/// yield the same nodes, edges, counts and error position.
pub proof fn lemma_build_deterministic(a: Seq<CourseData>, b: Seq<CourseData>)
    requires
        a.len() == b.len(),
        forall|i: int| 0 <= i < a.len() ==> (#[trigger] a[i]).docs() == b[i].docs() && a[i].csv()
            == b[i].csv(),
    ensures
        spec_counts(a) == spec_counts(b),
        spec_edges(a) == spec_edges(b),
        spec_nodes(a) == spec_nodes(b),
        first_bad(a) == first_bad(b),
    decreases a.len(),
{
    if a.len() > 0 {
        assert forall|i: int|
            0 <= i < a.drop_last().len() implies (#[trigger] a.drop_last()[i]).docs()
            == b.drop_last()[i].docs() && a.drop_last()[i].csv() == b.drop_last()[i].csv() by {
            assert(a.drop_last()[i] == a[i] && b.drop_last()[i] == b[i]);
        }
        lemma_build_deterministic(a.drop_last(), b.drop_last());
        assert(a[a.len() - 1].docs() == b[b.len() - 1].docs() && a[a.len() - 1].csv() == b[b.len()
            - 1].csv());
        assert(course_edges(a.last()) == course_edges(b.last()));
        assert(course_first_bad(a.last().docs()) == course_first_bad(b.last().docs()));
        assert(docs_counts(spec_counts(a.drop_last()), a.last().docs()) == docs_counts(
            spec_counts(b.drop_last()),
            b.last().docs(),
        ));
    }
}

} // verus!
