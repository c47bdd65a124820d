//! Syntax trees held in an arena, kind paths, and the pre-order search of
//! nodes whose kind path and text both match.

use vstd::prelude::*;
use vstd::utf8::encode_utf8;
use crate::pattern::{Pattern, pattern_matches};
use crate::text::{NEWLINE, raw_lines, text_lines, lemma_text_lines_len, split_lines, push_all, views};
use vstd::slice::{slice_subrange, slice_to_vec};

verus! {

pub const SEPARATOR: u8 = 47;

/// One node of a syntax tree: its kind label, its byte range `[start, end)`
/// in the source, the row it starts on, and the arena indices of its children
/// in source order.
#[derive(Debug, Clone)]
pub struct SyntaxNode {
    pub kind: String,
    pub start: usize,
    pub end: usize,
    pub row: usize,
    pub children: Vec<usize>,
}

/// A syntax tree whose node `0` is the document root. The root is the
/// container of the file: kind paths start at its children.
#[derive(Debug, Clone)]
pub struct SyntaxTree {
    pub nodes: Vec<SyntaxNode>,
}

/// A node that satisfied both patterns.
#[derive(Debug, Clone, PartialEq, Eq)]
pub struct MatchResult {
    /// Arena index of the node.
    pub node: usize,
    /// The kind labels from the top-level node down to this one, joined by `/`.
    pub kind_path: Vec<u8>,
    pub start: usize,
    pub end: usize,
    /// The row of the first line of the node's text that the content pattern
    /// matches, or the node's own row when no single line does.
    pub match_row: usize,
}

/// A node within the tree and within a source of `source_len` bytes; its
/// children come after it in the arena.
pub open spec fn node_wf(n: SyntaxNode, i: int, count: int, source_len: nat) -> bool {
    &&& n.start <= n.end <= source_len
    &&& n.row <= n.start
    &&& forall|k: int| 0 <= k < n.children@.len() ==> i < #[trigger] n.children@[k] < count
}

pub open spec fn kind_bytes(n: SyntaxNode) -> Seq<u8> {
    encode_utf8(n.kind@)
}

/// Labels joined by the separator.
pub open spec fn join_path(p: Seq<Seq<u8>>) -> Seq<u8>
    decreases p.len(),
{
    if p.len() == 0 {
        Seq::empty()
    } else if p.len() == 1 {
        p[0]
    } else {
        join_path(p.drop_last()) + seq![SEPARATOR] + p.last()
    }
}

/// Index of the first of `lines`, from `j` on, that `p` matches.
pub open spec fn first_line_from(p: Seq<char>, lines: Seq<Seq<u8>>, j: int) -> Option<int>
    decreases lines.len() - j,
{
    if j < 0 || j >= lines.len() {
        None
    } else if pattern_matches(p, lines[j]) {
        Some(j)
    } else {
        first_line_from(p, lines, j + 1)
    }
}

/// The row reported for a match in `text` that starts on `row`.
pub open spec fn match_row_of(p: Seq<char>, text: Seq<u8>, row: int) -> int {
    match first_line_from(p, text_lines(text), 0) {
        Some(j) => row + j,
        None => row,
    }
}

/// Whether a kind path passes the kind filter; no filter passes every path.
pub open spec fn kind_accepts(kind: Option<Pattern>, path: Seq<u8>) -> bool {
    match kind {
        None => true,
        Some(k) => pattern_matches(k.source(), path),
    }
}

impl SyntaxTree {
    pub open spec fn wf(&self, source_len: nat) -> bool {
        &&& self.nodes@.len() >= 1
        &&& forall|i: int|
            0 <= i < self.nodes@.len() ==> node_wf(
                #[trigger] self.nodes@[i],
                i,
                self.nodes@.len() as int,
                source_len,
            )
    }

    /// The text of node `i`.
    pub open spec fn text_of(&self, source: Seq<u8>, i: int) -> Seq<u8> {
        source.subrange(self.nodes@[i].start as int, self.nodes@[i].end as int)
    }

    /// Pre-order visits of node `i` and its subtree, each a node index and its
    /// kind path, given the kind path of `i`'s parent.
    pub open spec fn visits_node(&self, i: int, parent: Seq<Seq<u8>>) -> Seq<(int, Seq<Seq<u8>>)>
        decreases self.nodes@.len() - i, 1int, 0int,
    {
        if 0 <= i < self.nodes@.len() {
            let p = parent.push(kind_bytes(self.nodes@[i]));
            seq![(i, p)] + self.visits_children(i, p, 0)
        } else {
            Seq::empty()
        }
    }

    /// Pre-order visits of the subtrees of node `i`'s children from the
    /// `k`-th on, where `path` is the kind path of `i`.
    pub open spec fn visits_children(&self, i: int, path: Seq<Seq<u8>>, k: int) -> Seq<
        (int, Seq<Seq<u8>>),
    >
        decreases self.nodes@.len() - i, 0int, self.nodes@[i].children@.len() - k,
    {
        if 0 <= i < self.nodes@.len() && 0 <= k < self.nodes@[i].children@.len() {
            let c = self.nodes@[i].children@[k] as int;
            let rest = self.visits_children(i, path, k + 1);
            if i < c < self.nodes@.len() {
                self.visits_node(c, path) + rest
            } else {
                rest
            }
        } else {
            Seq::empty()
        }
    }

    /// Every node below the document root, in pre-order, with its kind path.
    pub open spec fn visits(&self) -> Seq<(int, Seq<Seq<u8>>)> {
        self.visits_children(0, Seq::empty(), 0)
    }

    /// Whether a visited node satisfies both the kind filter and the content pattern.
    pub open spec fn visit_matches(
        &self,
        source: Seq<u8>,
        kind: Option<Pattern>,
        content: Pattern,
        v: (int, Seq<Seq<u8>>),
    ) -> bool {
        kind_accepts(kind, join_path(v.1)) && pattern_matches(
            content.source(),
            self.text_of(source, v.0),
        )
    }

    pub open spec fn matcher(&self, source: Seq<u8>, kind: Option<Pattern>, content: Pattern) -> spec_fn(
        (int, Seq<Seq<u8>>),
    ) -> bool {
        |v: (int, Seq<Seq<u8>>)| self.visit_matches(source, kind, content, v)
    }

    /// The matching visits among `vs`, in order.
    pub open spec fn matching(
        &self,
        source: Seq<u8>,
        kind: Option<Pattern>,
        content: Pattern,
        vs: Seq<(int, Seq<Seq<u8>>)>,
    ) -> Seq<(int, Seq<Seq<u8>>)> {
        vs.filter(self.matcher(source, kind, content))
    }

    /// Whether `m` reports visit `v`.
    pub open spec fn reports(
        &self,
        source: Seq<u8>,
        content: Pattern,
        m: MatchResult,
        v: (int, Seq<Seq<u8>>),
    ) -> bool {
        let n = self.nodes@[v.0];
        &&& m.node == v.0
        &&& m.kind_path@ == join_path(v.1)
        &&& m.start == n.start
        &&& m.end == n.end
        &&& m.match_row == match_row_of(content.source(), self.text_of(source, v.0), n.row as int)
    }

    /// What a search reports: with `show_all`, every node below the document
    /// root that matches, in pre-order; otherwise the first such node only.
    pub open spec fn search_result(
        &self,
        source: Seq<u8>,
        kind: Option<Pattern>,
        content: Pattern,
        show_all: bool,
        r: Seq<MatchResult>,
    ) -> bool {
        let ms = self.matching(source, kind, content, self.visits());
        if show_all {
            &&& r.len() == ms.len()
            &&& forall|j: int| 0 <= j < ms.len() ==> self.reports(source, content, #[trigger] r[j], ms[j])
        } else {
            &&& r.len() == if ms.len() > 0 { 1int } else { 0int }
            &&& ms.len() > 0 ==> self.reports(source, content, r[0], ms[0])
        }
    }

    /// What a walk over `vs` leaves in `out`, starting from `before`: with
    /// `show_all`, a report of every matching visit; otherwise a report of the
    /// first one only, and then the walk has stopped.
    pub open spec fn walked(
        &self,
        source: Seq<u8>,
        kind: Option<Pattern>,
        content: Pattern,
        show_all: bool,
        vs: Seq<(int, Seq<Seq<u8>>)>,
        before: Seq<MatchResult>,
        out: Seq<MatchResult>,
        stopped: bool,
    ) -> bool {
        let ms = self.matching(source, kind, content, vs);
        if show_all {
            &&& !stopped
            &&& out.len() == before.len() + ms.len()
            &&& out.subrange(0, before.len() as int) == before
            &&& forall|j: int|
                0 <= j < ms.len() ==> self.reports(source, content, #[trigger] out[before.len() + j], ms[j])
        } else {
            &&& stopped == (ms.len() > 0)
            &&& ms.len() == 0 ==> out == before
            &&& ms.len() > 0 ==> out.len() == before.len() + 1 && out.subrange(0, before.len() as int) == before
                && self.reports(source, content, out[before.len() as int], ms[0])
        }
    }

    /// Node `c` is one of node `parent`'s children.
    pub open spec fn is_child(&self, parent: int, c: int) -> bool {
        0 <= parent < self.nodes@.len() && exists|k: int|
            0 <= k < self.nodes@[parent].children@.len() && #[trigger] self.nodes@[parent].children@[k]
                == c
    }

    /// `chain` goes down the tree from a child of the document root, each
    /// node a child of the one before.
    pub open spec fn is_descent(&self, chain: Seq<int>) -> bool {
        &&& chain.len() >= 1
        &&& self.is_child(0, chain[0])
        &&& forall|j: int| 0 <= j < chain.len() - 1 ==> #[trigger] self.is_child(chain[j], chain[j + 1])
    }

    /// The kind labels of the nodes of `chain`.
    pub open spec fn kinds_along(&self, chain: Seq<int>) -> Seq<Seq<u8>> {
        chain.map_values(|n: int| kind_bytes(self.nodes@[n]))
    }

    /// The kind path of visit `v` is the kinds along a descent to its node.
    pub open spec fn path_follows_descent(&self, v: (int, Seq<Seq<u8>>)) -> bool {
        exists|chain: Seq<int>|
            #![trigger self.kinds_along(chain)]
            self.is_descent(chain) && chain.last() == v.0 && v.1 == self.kinds_along(chain)
    }

    pub open spec fn paths_follow_descents(&self, vs: Seq<(int, Seq<Seq<u8>>)>) -> bool {
        forall|j: int| 0 <= j < vs.len() ==> #[trigger] self.path_follows_descent(vs[j])
    }

    /// The kind path of every visited node is the kinds of the nodes from the
    /// top of the tree down to it, itself included: a top-level node's path
    /// is its own kind alone.
    pub proof fn lemma_kind_paths(&self)
        ensures
            self.paths_follow_descents(self.visits()),
    {
        if self.nodes@.len() > 0 {
            assert(self.kinds_along(Seq::empty()) =~= Seq::<Seq<u8>>::empty());
            self.lemma_kind_paths_children(0, Seq::empty(), 0);
        } else {
            assert(self.visits() =~= Seq::<(int, Seq<Seq<u8>>)>::empty());
        }
    }

    proof fn lemma_kind_paths_node(&self, i: int, above: Seq<int>)
        requires
            0 <= i < self.nodes@.len(),
            self.is_descent(above.push(i)),
        ensures
            self.paths_follow_descents(self.visits_node(i, self.kinds_along(above))),
        decreases self.nodes@.len() - i, 1int, 0int,
    {
        let here = above.push(i);
        assert(self.kinds_along(here) =~= self.kinds_along(above).push(kind_bytes(self.nodes@[i])));
        self.lemma_kind_paths_children(i, here, 0);
        let vs = self.visits_node(i, self.kinds_along(above));
        let rest = self.visits_children(i, self.kinds_along(here), 0);
        assert(vs == seq![(i, self.kinds_along(here))] + rest);
        assert forall|j: int| 0 <= j < vs.len() implies #[trigger] self.path_follows_descent(vs[j]) by {
            if j == 0 {
                assert(self.is_descent(here) && here.last() == vs[j].0 && vs[j].1 == self.kinds_along(here));
            } else {
                assert(vs[j] == rest[j - 1]);
                assert(self.path_follows_descent(rest[j - 1]));
            }
        }
    }

    proof fn lemma_kind_paths_children(&self, i: int, above: Seq<int>, k: int)
        requires
            0 <= i < self.nodes@.len(),
            0 <= k,
            above.len() == 0 ==> i == 0,
            above.len() > 0 ==> self.is_descent(above) && above.last() == i,
        ensures
            self.paths_follow_descents(self.visits_children(i, self.kinds_along(above), k)),
        decreases self.nodes@.len() - i, 0int, self.nodes@[i].children@.len() - k,
    {
        let p = self.kinds_along(above);
        if k < self.nodes@[i].children@.len() {
            let c = self.nodes@[i].children@[k] as int;
            self.lemma_kind_paths_children(i, above, k + 1);
            if i < c < self.nodes@.len() {
                let down = above.push(c);
                assert(self.is_child(i, c));
                assert(self.is_descent(down)) by {
                    assert forall|j: int| 0 <= j < down.len() - 1 implies #[trigger] self.is_child(down[j], down[j + 1]) by {
                        if j < above.len() - 1 {
                            assert(self.is_child(above[j], above[j + 1]));
                        } else {
                            assert(down[j] == i && down[j + 1] == c);
                        }
                    }
                }
                assert(down.drop_last() =~= above);
                self.lemma_kind_paths_node(c, above);
                let first = self.visits_node(c, p);
                let rest = self.visits_children(i, p, k + 1);
                let vs = self.visits_children(i, p, k);
                assert(vs == first + rest);
                assert forall|j: int| 0 <= j < vs.len() implies #[trigger] self.path_follows_descent(vs[j]) by {
                    if j < first.len() {
                        assert(vs[j] == first[j]);
                        assert(self.path_follows_descent(first[j]));
                    } else {
                        assert(vs[j] == rest[j - first.len()]);
                        assert(self.path_follows_descent(rest[j - first.len()]));
                    }
                }
            }
        } else {
            assert(self.visits_children(i, p, k) =~= Seq::<(int, Seq<Seq<u8>>)>::empty());
        }
    }

    /// With `show_all` off, the one node that `search` reports is the first in
    /// pre-order that satisfies both patterns: no node before it does.
    pub proof fn lemma_first_match_is_earliest(
        &self,
        source: Seq<u8>,
        kind: Option<Pattern>,
        content: Pattern,
    )
        requires
            self.matching(source, kind, content, self.visits()).len() > 0,
        ensures
            exists|j: int|
                0 <= j < self.visits().len() && self.visits()[j] == self.matching(
                    source,
                    kind,
                    content,
                    self.visits(),
                )[0] && self.visit_matches(source, kind, content, self.visits()[j]) && forall|i: int|
                    0 <= i < j ==> !#[trigger] self.visit_matches(source, kind, content, self.visits()[i]),
    {
        let vs = self.visits();
        let pred = self.matcher(source, kind, content);
        lemma_filter_first(vs, pred);
        let j = choose|j: int|
            0 <= j < vs.len() && vs[j] == vs.filter(pred)[0] && pred(vs[j]) && forall|i: int|
                0 <= i < j ==> !#[trigger] pred(vs[i]);
        assert forall|i: int| 0 <= i < j implies !#[trigger] self.visit_matches(source, kind, content, vs[i]) by {
            assert(!pred(vs[i]));
        }
        assert(self.visit_matches(source, kind, content, vs[j]));
    }

    /// A node whose kind path the kind filter rejects is never reported, and
    /// neither is one whose text the content pattern does not match.
    pub proof fn lemma_reports_pass_both_patterns(
        &self,
        source: Seq<u8>,
        kind: Option<Pattern>,
        content: Pattern,
        show_all: bool,
        r: Seq<MatchResult>,
    )
        requires
            self.search_result(source, kind, content, show_all, r),
        ensures
            forall|j: int|
                0 <= j < r.len() ==> kind_accepts(kind, (#[trigger] r[j]).kind_path@) && pattern_matches(
                    content.source(),
                    self.text_of(source, r[j].node as int),
                ),
    {
        let vs = self.visits();
        let pred = self.matcher(source, kind, content);
        let ms = self.matching(source, kind, content, vs);
        assert forall|j: int| 0 <= j < r.len() implies kind_accepts(kind, (#[trigger] r[j]).kind_path@)
            && pattern_matches(content.source(), self.text_of(source, r[j].node as int)) by {
            vs.lemma_filter_pred(pred, j);
            assert(self.visit_matches(source, kind, content, ms[j]));
        }
    }

    /// With `show_all` off, a node that satisfies both patterns, with no node
    /// before it in pre-order that does, is the one reported.
    pub proof fn lemma_earliest_match_reported(
        &self,
        source: Seq<u8>,
        kind: Option<Pattern>,
        content: Pattern,
        r: Seq<MatchResult>,
        j: int,
    )
        requires
            self.search_result(source, kind, content, false, r),
            0 <= j < self.visits().len(),
            self.visit_matches(source, kind, content, self.visits()[j]),
            forall|i: int|
                0 <= i < j ==> !#[trigger] self.visit_matches(source, kind, content, self.visits()[i]),
        ensures
            r.len() == 1,
            self.reports(source, content, r[0], self.visits()[j]),
    {
        let vs = self.visits();
        let pred = self.matcher(source, kind, content);
        self.lemma_match_found_when_some_node_matches(source, kind, content, j);
        lemma_filter_first(vs, pred);
        let j0 = choose|j0: int|
            0 <= j0 < vs.len() && vs[j0] == vs.filter(pred)[0] && pred(vs[j0]) && forall|i: int|
                0 <= i < j0 ==> !#[trigger] pred(vs[i]);
        if j0 < j {
            assert(!self.visit_matches(source, kind, content, vs[j0]));
        } else if j < j0 {
            assert(!pred(vs[j]));
        }
    }

    /// The visit at `j` of `vs` is followed by the rest of its node's subtree:
    /// `vs` holds the pre-order visits of that subtree from `j` on.
    pub open spec fn subtree_at(&self, vs: Seq<(int, Seq<Seq<u8>>)>, j: int) -> bool {
        exists|q: Seq<Seq<u8>>|
            #![trigger self.visits_node(vs[j].0, q)]
            j + self.visits_node(vs[j].0, q).len() <= vs.len() && vs.subrange(
                j,
                j + self.visits_node(vs[j].0, q).len(),
            ) == self.visits_node(vs[j].0, q)
    }

    proof fn lemma_subtrees_node(&self, i: int, p: Seq<Seq<u8>>)
        ensures
            forall|j: int|
                0 <= j < self.visits_node(i, p).len() ==> #[trigger] self.subtree_at(
                    self.visits_node(i, p),
                    j,
                ),
        decreases self.nodes@.len() - i, 1int, 0int,
    {
        let vs = self.visits_node(i, p);
        if 0 <= i < self.nodes@.len() {
            let here = p.push(kind_bytes(self.nodes@[i]));
            let c = self.visits_children(i, here, 0);
            self.lemma_subtrees_children(i, here, 0);
            assert forall|j: int| 0 <= j < vs.len() implies #[trigger] self.subtree_at(vs, j) by {
                if j == 0 {
                    assert(vs.subrange(0, vs.len() as int) =~= vs);
                    assert(vs[0].0 == i);
                } else {
                    assert(self.subtree_at(c, j - 1));
                    let q = choose|q: Seq<Seq<u8>>|
                        #![trigger self.visits_node(c[j - 1].0, q)]
                        j - 1 + self.visits_node(c[j - 1].0, q).len() <= c.len() && c.subrange(
                            j - 1,
                            j - 1 + self.visits_node(c[j - 1].0, q).len(),
                        ) == self.visits_node(c[j - 1].0, q);
                    let l = self.visits_node(c[j - 1].0, q).len();
                    assert(vs[j] == c[j - 1]);
                    assert(vs.subrange(j, j + l) =~= c.subrange(j - 1, j - 1 + l));
                }
            }
        }
    }

    proof fn lemma_subtrees_children(&self, i: int, p: Seq<Seq<u8>>, k: int)
        ensures
            forall|j: int|
                0 <= j < self.visits_children(i, p, k).len() ==> #[trigger] self.subtree_at(
                    self.visits_children(i, p, k),
                    j,
                ),
        decreases self.nodes@.len() - i, 0int, self.nodes@[i].children@.len() - k,
    {
        let vs = self.visits_children(i, p, k);
        if 0 <= i < self.nodes@.len() && 0 <= k < self.nodes@[i].children@.len() {
            let c = self.nodes@[i].children@[k] as int;
            let rest = self.visits_children(i, p, k + 1);
            self.lemma_subtrees_children(i, p, k + 1);
            if i < c < self.nodes@.len() {
                let first = self.visits_node(c, p);
                self.lemma_subtrees_node(c, p);
                assert forall|j: int| 0 <= j < vs.len() implies #[trigger] self.subtree_at(vs, j) by {
                    if j < first.len() {
                        assert(self.subtree_at(first, j));
                        let q = choose|q: Seq<Seq<u8>>|
                            #![trigger self.visits_node(first[j].0, q)]
                            j + self.visits_node(first[j].0, q).len() <= first.len() && first.subrange(
                                j,
                                j + self.visits_node(first[j].0, q).len(),
                            ) == self.visits_node(first[j].0, q);
                        let l = self.visits_node(first[j].0, q).len();
                        assert(vs[j] == first[j]);
                        assert(vs.subrange(j, j + l) =~= first.subrange(j, j + l));
                    } else {
                        let j2 = j - first.len();
                        assert(self.subtree_at(rest, j2));
                        let q = choose|q: Seq<Seq<u8>>|
                            #![trigger self.visits_node(rest[j2].0, q)]
                            j2 + self.visits_node(rest[j2].0, q).len() <= rest.len() && rest.subrange(
                                j2,
                                j2 + self.visits_node(rest[j2].0, q).len(),
                            ) == self.visits_node(rest[j2].0, q);
                        let l = self.visits_node(rest[j2].0, q).len();
                        assert(vs[j] == rest[j2]);
                        assert(vs.subrange(j, j + l) =~= rest.subrange(j2, j2 + l));
                    }
                }
            }
        }
    }

    /// Every visit of a node is followed by the visits of the nodes inside
    /// it: an enclosing node comes before what it encloses.
    pub proof fn lemma_enclosing_first(&self)
        ensures
            forall|j: int| 0 <= j < self.visits().len() ==> #[trigger] self.subtree_at(self.visits(), j),
    {
        self.lemma_subtrees_children(0, Seq::empty(), 0);
    }

    /// With `show_all` on, when a node and a node inside it (a later visit of
    /// its subtree, which `lemma_enclosing_first` lays out) are the only ones
    /// that satisfy both patterns, both are reported, the enclosing one first.
    pub proof fn lemma_outer_reported_before_inner(
        &self,
        source: Seq<u8>,
        kind: Option<Pattern>,
        content: Pattern,
        r: Seq<MatchResult>,
        j: int,
        q: Seq<Seq<u8>>,
        d: int,
    )
        requires
            self.search_result(source, kind, content, true, r),
            0 <= j < self.visits().len(),
            j + self.visits_node(self.visits()[j].0, q).len() <= self.visits().len(),
            self.visits().subrange(j, j + self.visits_node(self.visits()[j].0, q).len())
                == self.visits_node(self.visits()[j].0, q),
            0 < d < self.visits_node(self.visits()[j].0, q).len(),
            self.visit_matches(source, kind, content, self.visits()[j]),
            self.visit_matches(source, kind, content, self.visits_node(self.visits()[j].0, q)[d]),
            forall|i: int|
                0 <= i < self.visits().len() && #[trigger] self.visit_matches(
                    source,
                    kind,
                    content,
                    self.visits()[i],
                ) ==> i == j || i == j + d,
        ensures
            r.len() == 2,
            self.reports(source, content, r[0], self.visits()[j]),
            self.reports(source, content, r[1], self.visits_node(self.visits()[j].0, q)[d]),
    {
        let vs = self.visits();
        let inner = self.visits_node(vs[j].0, q);
        assert(vs.subrange(j, j + inner.len())[d] == vs[j + d]);
        self.lemma_two_matches_in_order(source, kind, content, r, j, j + d);
    }

    /// With `show_all` on, when exactly two nodes satisfy both patterns, both
    /// are reported, in pre-order: the one visited first (an enclosing node
    /// comes before the nodes inside it, see `visits_node`) comes first.
    pub proof fn lemma_two_matches_in_order(
        &self,
        source: Seq<u8>,
        kind: Option<Pattern>,
        content: Pattern,
        r: Seq<MatchResult>,
        j1: int,
        j2: int,
    )
        requires
            self.search_result(source, kind, content, true, r),
            0 <= j1 < j2 < self.visits().len(),
            self.visit_matches(source, kind, content, self.visits()[j1]),
            self.visit_matches(source, kind, content, self.visits()[j2]),
            forall|i: int|
                0 <= i < self.visits().len() && #[trigger] self.visit_matches(
                    source,
                    kind,
                    content,
                    self.visits()[i],
                ) ==> i == j1 || i == j2,
        ensures
            r.len() == 2,
            self.reports(source, content, r[0], self.visits()[j1]),
            self.reports(source, content, r[1], self.visits()[j2]),
    {
        let vs = self.visits();
        let pred = self.matcher(source, kind, content);
        assert forall|i: int| 0 <= i < vs.len() && #[trigger] pred(vs[i]) implies i == j1 || i == j2 by {
            assert(self.visit_matches(source, kind, content, vs[i]));
        }
        lemma_filter_picks(vs, pred, j1, j2, true);
    }

    /// A node is reported whenever some node satisfies both patterns.
    pub proof fn lemma_match_found_when_some_node_matches(
        &self,
        source: Seq<u8>,
        kind: Option<Pattern>,
        content: Pattern,
        j: int,
    )
        requires
            0 <= j < self.visits().len(),
            self.visit_matches(source, kind, content, self.visits()[j]),
        ensures
            self.matching(source, kind, content, self.visits()).len() > 0,
    {
        let pred = self.matcher(source, kind, content);
        self.visits().lemma_filter_contains(pred, j);
    }

    /// Walking `vs1` and then, unless that stopped, `vs2`, is walking `vs1 + vs2`.
    proof fn lemma_walked_concat(
        &self,
        source: Seq<u8>,
        kind: Option<Pattern>,
        content: Pattern,
        show_all: bool,
        vs1: Seq<(int, Seq<Seq<u8>>)>,
        vs2: Seq<(int, Seq<Seq<u8>>)>,
        b0: Seq<MatchResult>,
        b1: Seq<MatchResult>,
        b2: Seq<MatchResult>,
        s1: bool,
        s2: bool,
    )
        requires
            self.walked(source, kind, content, show_all, vs1, b0, b1, s1),
            !s1 ==> self.walked(source, kind, content, show_all, vs2, b1, b2, s2),
        ensures
            s1 ==> self.walked(source, kind, content, show_all, vs1 + vs2, b0, b1, true),
            !s1 ==> self.walked(source, kind, content, show_all, vs1 + vs2, b0, b2, s2),
    {
        let pred = self.matcher(source, kind, content);
        Seq::filter_distributes_over_add(vs1, vs2, pred);
        let ms1 = self.matching(source, kind, content, vs1);
        let ms2 = self.matching(source, kind, content, vs2);
        let ms = self.matching(source, kind, content, vs1 + vs2);
        assert(ms == ms1 + ms2);
        if show_all {
            assert(b2.subrange(0, b1.len() as int) == b1);
            assert(b2.subrange(0, b0.len() as int) =~= b0) by {
                assert forall|j: int| 0 <= j < b0.len() implies b2[j] == b0[j] by {
                    assert(b2.subrange(0, b1.len() as int)[j] == b1[j]);
                    assert(b1.subrange(0, b0.len() as int)[j] == b0[j]);
                }
            }
            assert forall|j: int| 0 <= j < ms.len() implies self.reports(
                source,
                content,
                #[trigger] b2[b0.len() + j],
                ms[j],
            ) by {
                if j < ms1.len() {
                    assert(b2.subrange(0, b1.len() as int)[b0.len() + j] == b1[b0.len() + j]);
                    assert(self.reports(source, content, b1[b0.len() + j], ms1[j]));
                } else {
                    let j2 = j - ms1.len();
                    assert(self.reports(source, content, b2[b1.len() + j2], ms2[j2]));
                    assert(b1.len() + j2 == b0.len() + j);
                }
            }
        } else if !s1 {
            assert(ms1.len() == 0);
            assert(ms =~= ms2);
        } else {
            assert(ms[0] == ms1[0]);
        }
    }

    /// The visits of one node on its own.
    proof fn lemma_walked_single(
        &self,
        source: Seq<u8>,
        kind: Option<Pattern>,
        content: Pattern,
        show_all: bool,
        v: (int, Seq<Seq<u8>>),
        b0: Seq<MatchResult>,
        b1: Seq<MatchResult>,
    )
        requires
            self.visit_matches(source, kind, content, v) ==> b1 == b0.push(b1.last()) && b1.len()
                == b0.len() + 1 && self.reports(source, content, b1.last(), v),
            !self.visit_matches(source, kind, content, v) ==> b1 == b0,
        ensures
            self.walked(
                source,
                kind,
                content,
                show_all,
                seq![v],
                b0,
                b1,
                !show_all && self.visit_matches(source, kind, content, v),
            ),
    {
        reveal_with_fuel(Seq::filter, 2);
        let ms = self.matching(source, kind, content, seq![v]);
        assert(seq![v].drop_last() =~= Seq::<(int, Seq<Seq<u8>>)>::empty());
        if self.visit_matches(source, kind, content, v) {
            assert(ms =~= seq![v]);
            assert(b1.subrange(0, b0.len() as int) =~= b0);
        } else {
            assert(ms =~= Seq::<(int, Seq<Seq<u8>>)>::empty());
            assert(b1.subrange(0, b0.len() as int) =~= b0);
        }
    }

    /// Whether the tree is well formed over a source of `source_len` bytes.
    pub fn is_well_formed(&self, source_len: usize) -> (r: bool)
        ensures
            r == self.wf(source_len as nat),
    {
        if self.nodes.len() == 0 {
            return false;
        }
        let count = self.nodes.len();
        let mut i: usize = 0;
        while i < count
            invariant
                count == self.nodes@.len(),
                0 <= i <= count,
                forall|j: int| 0 <= j < i ==> node_wf(#[trigger] self.nodes@[j], j, count as int, source_len as nat),
            decreases count - i,
        {
            let n = &self.nodes[i];
            if !(n.start <= n.end && n.end <= source_len && n.row <= n.start) {
                proof {
                    assert(!node_wf(self.nodes@[i as int], i as int, count as int, source_len as nat));
                }
                return false;
            }
            let mut k: usize = 0;
            while k < n.children.len()
                invariant
                    count == self.nodes@.len(),
                    0 <= i < count,
                    *n == self.nodes@[i as int],
                    n.start <= n.end <= source_len,
                    n.row <= n.start,
                    0 <= k <= n.children@.len(),
                    forall|q: int| 0 <= q < k ==> i < #[trigger] n.children@[q] < count,
                decreases n.children.len() - k,
            {
                let c = n.children[k];
                if !(i < c && c < count) {
                    proof {
                        assert(n.children@[k as int] == c);
                        assert(!node_wf(self.nodes@[i as int], i as int, count as int, source_len as nat));
                    }
                    return false;
                }
                k = k + 1;
            }
            i = i + 1;
        }
        true
    }

    /// Visits node `i` and its subtree in pre-order, with the kind labels of
    /// its ancestors on `stack`, and reports matches into `out`.
    fn walk_node(
        &self,
        source: &[u8],
        kind: &Option<Pattern>,
        content: &Pattern,
        show_all: bool,
        i: usize,
        stack: &mut Vec<Vec<u8>>,
        out: &mut Vec<MatchResult>,
    ) -> (stopped: bool)
        requires
            self.wf(source@.len()),
            i < self.nodes@.len(),
        ensures
            final(stack)@ == old(stack)@,
            self.walked(
                source@,
                *kind,
                *content,
                show_all,
                self.visits_node(i as int, views(old(stack)@)),
                old(out)@,
                final(out)@,
                stopped,
            ),
        decreases self.nodes@.len() - i, 1int, 0int,
    {
        let ghost s0 = stack@;
        let ghost b0 = out@;
        let node = &self.nodes[i];
        proof {
            assert(node_wf(self.nodes@[i as int], i as int, self.nodes@.len() as int, source@.len()));
        }
        let label = slice_to_vec(node.kind.as_str().as_bytes());
        stack.push(label);
        let ghost path = views(stack@);
        proof {
            assert(path =~= views(s0).push(kind_bytes(self.nodes@[i as int])));
        }
        let joined = join_labels(stack);
        let text = slice_subrange(source, node.start, node.end);
        let ghost v = (i as int, path);
        let hit = kind_ok(kind, joined.as_slice()) && content.is_match(text);
        if hit {
            proof {
                lemma_text_lines_len(text@);
            }
            let row = match_row(content, text, node.row);
            out.push(
                MatchResult {
                    node: i,
                    kind_path: joined,
                    start: node.start,
                    end: node.end,
                    match_row: row,
                },
            );
        }
        let ghost b1 = out@;
        proof {
            self.lemma_walked_single(source@, *kind, *content, show_all, v, b0, b1);
            assert(self.visits_node(i as int, views(s0)) == seq![v] + self.visits_children(
                i as int,
                path,
                0,
            ));
        }
        if hit && !show_all {
            stack.pop();
            proof {
                assert(stack@ =~= s0);
                self.lemma_walked_concat(
                    source@,
                    *kind,
                    *content,
                    show_all,
                    seq![v],
                    self.visits_children(i as int, path, 0),
                    b0,
                    b1,
                    b1,
                    true,
                    true,
                );
            }
            return true;
        }
        let stopped = self.walk_children(source, kind, content, show_all, i, 0, stack, out);
        stack.pop();
        proof {
            assert(stack@ =~= s0);
            self.lemma_walked_concat(
                source@,
                *kind,
                *content,
                show_all,
                seq![v],
                self.visits_children(i as int, path, 0),
                b0,
                b1,
                out@,
                false,
                stopped,
            );
        }
        stopped
    }

    /// Visits the subtrees of node `i`'s children from the `k`-th on.
    fn walk_children(
        &self,
        source: &[u8],
        kind: &Option<Pattern>,
        content: &Pattern,
        show_all: bool,
        i: usize,
        k: usize,
        stack: &mut Vec<Vec<u8>>,
        out: &mut Vec<MatchResult>,
    ) -> (stopped: bool)
        requires
            self.wf(source@.len()),
            i < self.nodes@.len(),
            k <= self.nodes@[i as int].children@.len(),
        ensures
            final(stack)@ == old(stack)@,
            self.walked(
                source@,
                *kind,
                *content,
                show_all,
                self.visits_children(i as int, views(old(stack)@), k as int),
                old(out)@,
                final(out)@,
                stopped,
            ),
        decreases self.nodes@.len() - i, 0int, self.nodes@[i as int].children@.len() - k,
    {
        let ghost path = views(stack@);
        let ghost b0 = out@;
        if k >= self.nodes[i].children.len() {
            proof {
                let ms = self.matching(source@, *kind, *content, Seq::empty());
                assert(ms =~= Seq::<(int, Seq<Seq<u8>>)>::empty());
                assert(out@.subrange(0, b0.len() as int) =~= b0);
            }
            return false;
        }
        let c = self.nodes[i].children[k];
        proof {
            assert(node_wf(self.nodes@[i as int], i as int, self.nodes@.len() as int, source@.len()));
            assert(i < self.nodes@[i as int].children@[k as int]);
        }
        let s1 = self.walk_node(source, kind, content, show_all, c, stack, out);
        let ghost b1 = out@;
        if s1 {
            proof {
                self.lemma_walked_concat(
                    source@,
                    *kind,
                    *content,
                    show_all,
                    self.visits_node(c as int, path),
                    self.visits_children(i as int, path, k + 1),
                    b0,
                    b1,
                    b1,
                    true,
                    true,
                );
            }
            return true;
        }
        let s2 = self.walk_children(source, kind, content, show_all, i, k + 1, stack, out);
        proof {
            self.lemma_walked_concat(
                source@,
                *kind,
                *content,
                show_all,
                self.visits_node(c as int, path),
                self.visits_children(i as int, path, k + 1),
                b0,
                b1,
                out@,
                false,
                s2,
            );
        }
        s2
    }

    /// The nodes below the document root whose kind path passes `kind` and
    /// whose text `content` matches, in pre-order: all of them with
    /// `show_all`, otherwise only the first.
    pub fn search(&self, source: &[u8], kind: &Option<Pattern>, content: &Pattern, show_all: bool) -> (r: Vec<MatchResult>)
        requires
            self.wf(source@.len()),
        ensures
            self.search_result(source@, *kind, *content, show_all, r@),
    {
        let mut stack: Vec<Vec<u8>> = Vec::new();
        let mut out: Vec<MatchResult> = Vec::new();
        proof {
            assert(views(stack@) =~= Seq::<Seq<u8>>::empty());
        }
        let _ = self.walk_children(source, kind, content, show_all, 0, 0, &mut stack, &mut out);
        proof {
            let ms = self.matching(source@, *kind, *content, self.visits());
            if show_all {
                assert forall|j: int| 0 <= j < ms.len() implies self.reports(source@, *content, #[trigger] out@[j], ms[j]) by {
                    assert(out@[0 + j] == out@[j]);
                }
            }
        }
        out
    }
}

/// A filter that only the elements at `j1 < j2` pass keeps exactly those two,
/// in order; when `two` is off, only the element at `j1` passes and is kept.
proof fn lemma_filter_picks<A>(vs: Seq<A>, pred: spec_fn(A) -> bool, j1: int, j2: int, two: bool)
    requires
        0 <= j1 < vs.len(),
        two ==> j1 < j2 < vs.len(),
        pred(vs[j1]),
        two ==> pred(vs[j2]),
        forall|i: int| 0 <= i < vs.len() && #[trigger] pred(vs[i]) ==> i == j1 || (two && i == j2),
    ensures
        two ==> vs.filter(pred) == seq![vs[j1], vs[j2]],
        !two ==> vs.filter(pred) == seq![vs[j1]],
    decreases vs.len(),
{
    reveal(Seq::filter);
    let d = vs.drop_last();
    let last = vs.len() - 1;
    if (two && j2 == last) || (!two && j1 == last) {
        if two {
            lemma_filter_picks(d, pred, j1, j1, false);
            assert(vs.filter(pred) =~= seq![vs[j1], vs[j2]]);
        } else {
            d.lemma_all_neg_filter_empty(pred);
            assert(d.filter(pred) =~= Seq::<A>::empty());
            assert(vs.filter(pred) =~= seq![vs[j1]]);
        }
    } else {
        assert(!pred(vs.last()));
        lemma_filter_picks(d, pred, j1, j2, two);
    }
}

/// Text without a newline is a single line.
proof fn lemma_one_line(s: Seq<u8>)
    requires
        forall|i: int| 0 <= i < s.len() ==> s[i] != NEWLINE,
    ensures
        raw_lines(s) == seq![s],
    decreases s.len(),
{
    if s.len() > 0 {
        let d = s.drop_last();
        lemma_one_line(d);
        assert(d.push(s.last()) =~= s);
        assert(s.last() != NEWLINE);
        assert(raw_lines(s) == seq![d].update(0, d.push(s.last())));
        assert(raw_lines(s) =~= seq![s]);
    } else {
        assert(s =~= Seq::<u8>::empty());
    }
}

/// When a node's text is one line that the content pattern matches, the
/// match is reported on the node's own row.
pub proof fn lemma_match_row_single_line(p: Seq<char>, text: Seq<u8>, row: int)
    requires
        text.len() > 0,
        forall|i: int| 0 <= i < text.len() ==> text[i] != NEWLINE,
        pattern_matches(p, text),
    ensures
        match_row_of(p, text, row) == row,
{
    lemma_one_line(text);
    assert(text_lines(text) =~= seq![text]);
}

/// The first element kept by a filter is the first element that satisfies it.
proof fn lemma_filter_first<A>(vs: Seq<A>, pred: spec_fn(A) -> bool)
    requires
        vs.filter(pred).len() > 0,
    ensures
        exists|j: int|
            0 <= j < vs.len() && vs[j] == vs.filter(pred)[0] && pred(vs[j]) && forall|i: int|
                0 <= i < j ==> !#[trigger] pred(vs[i]),
    decreases vs.len(),
{
    reveal(Seq::filter);
    let d = vs.drop_last();
    if d.filter(pred).len() > 0 {
        lemma_filter_first(d, pred);
        let j = choose|j: int|
            0 <= j < d.len() && d[j] == d.filter(pred)[0] && pred(d[j]) && forall|i: int|
                0 <= i < j ==> !#[trigger] pred(d[i]);
        assert(vs.filter(pred)[0] == d.filter(pred)[0]);
        assert(vs[j] == d[j]);
        assert forall|i: int| 0 <= i < j implies !#[trigger] pred(vs[i]) by {
            assert(vs[i] == d[i]);
        }
    } else {
        assert forall|i: int| 0 <= i < vs.len() - 1 implies !#[trigger] pred(vs[i]) by {
            assert(vs[i] == d[i]);
            if pred(d[i]) {
                d.lemma_filter_contains(pred, i);
            }
        }
        assert(pred(vs.last()));
        assert(vs.filter(pred)[0] == vs.last());
    }
}

/// Whether `path` passes the kind filter.
fn kind_ok(kind: &Option<Pattern>, path: &[u8]) -> (r: bool)
    ensures
        r == kind_accepts(*kind, path@),
{
    match kind {
        None => true,
        Some(k) => k.is_match(path),
    }
}

/// The labels on `stack`, joined by the separator.
pub fn join_labels(stack: &Vec<Vec<u8>>) -> (r: Vec<u8>)
    ensures
        r@ == join_path(views(stack@)),
{
    let mut out: Vec<u8> = Vec::new();
    let mut k: usize = 0;
    proof {
        assert(views(stack@).subrange(0, 0) =~= Seq::<Seq<u8>>::empty());
    }
    while k < stack.len()
        invariant
            0 <= k <= stack@.len(),
            out@ == join_path(views(stack@).subrange(0, k as int)),
        decreases stack.len() - k,
    {
        let ghost p = views(stack@).subrange(0, k as int + 1);
        proof {
            assert(p.drop_last() =~= views(stack@).subrange(0, k as int));
        }
        if k > 0 {
            out.push(SEPARATOR);
        }
        push_all(&mut out, stack[k].as_slice());
        proof {
            if k == 0 {
                assert(out@ =~= join_path(p));
            } else {
                assert(out@ =~= join_path(p));
            }
        }
        k = k + 1;
    }
    proof {
        assert(views(stack@).subrange(0, stack@.len() as int) =~= views(stack@));
    }
    out
}

/// The row of the first line of `text` that `content` matches, counting from
/// `row`, the row `text` starts on; `row` itself when no single line matches.
pub fn match_row(content: &Pattern, text: &[u8], row: usize) -> (r: usize)
    requires
        row + text@.len() <= usize::MAX,
    ensures
        r == match_row_of(content.source(), text@, row as int),
{
    let lines = split_lines(text);
    let ghost ls = text_lines(text@);
    proof {
        lemma_text_lines_len(text@);
    }
    let mut j: usize = 0;
    while j < lines.len()
        invariant
            views(lines@) == ls,
            ls == text_lines(text@),
            ls.len() <= text@.len(),
            row + text@.len() <= usize::MAX,
            0 <= j <= lines@.len(),
            first_line_from(content.source(), ls, 0) == first_line_from(content.source(), ls, j as int),
        decreases lines.len() - j,
    {
        assert(lines@.len() == ls.len());
        assert(ls[j as int] == lines@[j as int]@);
        if content.is_match(lines[j].as_slice()) {
            assert(first_line_from(content.source(), ls, j as int) == Some(j as int));
            assert(j < text@.len());
            assert(row + j <= usize::MAX);
            return row + j;
        }
        j = j + 1;
    }
    assert(first_line_from(content.source(), ls, j as int) is None);
    row
}

} // verus!
