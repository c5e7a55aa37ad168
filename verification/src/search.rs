//! The search engine: a preorder, depth-first scan of the forest that applies
//! the kind filter, then a case-insensitive substring test against each node's
//! name and, for prompt content, against every line, reporting per-line,
//! overlap-inclusive match spans in 1-based character columns.

use vstd::prelude::*;
use crate::models::{
    forest_view, lemma_forest_view, matches_view, node_view, results_view, FiltersView, ItemType,
    MatchView, NodeView, ResultView, SearchFilters, SearchMatch, SearchResult, TreeItem,
};
use crate::store::Store;
use crate::text::{
    chars_of, check_blank, contains_sub, find_hits, has_substring, hits, hits_from, is_blank,
    is_hit, lines_of, lines_view, lower_of, split_lines, to_lower,
};

verus! {

/// A node passes the filter when no kind restriction is supplied, the supplied
/// set is empty, or the node's kind is in the set. The date bucket in the
/// schema imposes no constraint.
pub open spec fn kind_eligible(kind: ItemType, filters: Option<FiltersView>) -> bool {
    match filters {
        None => true,
        Some(fl) => match fl.types {
            None => true,
            Some(ts) => ts.len() == 0 || ts.contains(kind),
        },
    }
}

pub open spec fn filters_view(filters: Option<SearchFilters>) -> Option<FiltersView> {
    match filters {
        Some(f) => Some(f@),
        None => None,
    }
}

/// Column arithmetic must fit in `usize`: a machine limit, unreachable for any
/// line that fits in memory.
pub open spec fn columns_fit(line: Seq<char>, q: Seq<char>) -> bool {
    lower_of(line).len() + q.len() + 1 <= usize::MAX
}

/// The match spans of the folded query within one line, in scan order.
pub open spec fn line_matches(line: Seq<char>, lineno: int, q: Seq<char>) -> Seq<MatchView> {
    if columns_fit(line, q) {
        hits(lower_of(line), q).map_values(
            |j: int|
                MatchView {
                    line_content: line,
                    line_number: lineno,
                    start_column: j + 1,
                    end_column: j + 1 + q.len(),
                },
        )
    } else {
        seq![]
    }
}

/// The match spans of all lines from position `k` on, lines numbered from 1.
pub open spec fn content_matches_from(lines: Seq<Seq<char>>, q: Seq<char>, k: int) -> Seq<MatchView>
    decreases lines.len() - k,
    when 0 <= k <= lines.len()
{
    if k == lines.len() {
        seq![]
    } else {
        line_matches(lines[k], k + 1, q) + content_matches_from(lines, q, k + 1)
    }
}

/// The match spans of one node: per-line occurrences of the folded query in a
/// prompt's content; other kinds, and prompts without content, carry none.
pub open spec fn node_matches(n: NodeView, q: Seq<char>) -> Seq<MatchView> {
    if n.kind == ItemType::Prompt && n.content is Some {
        content_matches_from(lines_of(n.content->0), q, 0)
    } else {
        seq![]
    }
}

/// A node qualifies on a folded-name hit, or on at least one content match.
pub open spec fn node_qualifies(n: NodeView, q: Seq<char>) -> bool {
    has_substring(lower_of(n.name), q) || node_matches(n, q).len() > 0
}

/// The record reported for one qualifying node.
pub open spec fn result_of(n: NodeView, q: Seq<char>) -> ResultView {
    ResultView {
        item_id: n.id,
        item_name: n.name,
        item_kind: n.kind,
        matches: node_matches(n, q),
        last_modified: n.metadata.last_modified,
    }
}

/// The results a preorder walk of one subtree reports.
pub open spec fn search_node(n: NodeView, q: Seq<char>, filters: Option<FiltersView>) -> Seq<
    ResultView,
>
    decreases n,
{
    (if kind_eligible(n.kind, filters) && node_qualifies(n, q) {
        seq![result_of(n, q)]
    } else {
        seq![]
    }) + search_results(n.children, q, filters)
}

/// The results a preorder walk of the forest reports, in traversal order.
pub open spec fn search_results(f: Seq<NodeView>, q: Seq<char>, filters: Option<FiltersView>) -> Seq<
    ResultView,
>
    decreases f,
{
    if f.len() == 0 {
        seq![]
    } else {
        search_node(f[0], q, filters) + search_results(f.drop_first(), q, filters)
    }
}

/// Repeating an identical search with no intervening mutation yields identical
/// results in identical order: the outcome is a function of the forest, the
/// folded query, and the filters alone.
pub proof fn lemma_search_idempotent(
    r1: Seq<ResultView>,
    r2: Seq<ResultView>,
    f: Seq<NodeView>,
    q: Seq<char>,
    filters: Option<FiltersView>,
)
    requires
        r1 == search_results(f, q, filters),
        r2 == search_results(f, q, filters),
    ensures
        r1 == r2,
{
}

/// Every entry of `hits_from` is an occurrence position.
pub proof fn lemma_hits_are_hits(line: Seq<char>, q: Seq<char>, i: int)
    requires
        0 <= i,
        1 <= q.len(),
    ensures
        forall|t: int|
            0 <= t < hits_from(line, q, i).len() ==> is_hit(line, q, hits_from(line, q, i)[t]),
    decreases line.len() - i,
{
    if i + q.len() <= line.len() {
        lemma_hits_are_hits(line, q, i + 1);
        assert forall|t: int|
            0 <= t < hits_from(line, q, i).len() implies is_hit(
            line,
            q,
            hits_from(line, q, i)[t],
        ) by {
            if is_hit(line, q, i) {
                if t > 0 {
                    assert(hits_from(line, q, i)[t] == hits_from(line, q, i + 1)[t - 1]);
                }
            } else {
                assert(hits_from(line, q, i)[t] == hits_from(line, q, i + 1)[t]);
            }
        }
    }
}

/// Decides whether the kind set holds this kind.
fn contains_kind(ts: &Vec<ItemType>, kind: ItemType) -> (r: bool)
    ensures
        r == ts@.contains(kind),
{
    let mut i: usize = 0;
    while i < ts.len()
        invariant
            0 <= i <= ts@.len(),
            forall|j: int| 0 <= j < i ==> ts@[j] != kind,
        decreases ts@.len() - i,
    {
        if ts[i] == kind {
            proof {
                assert(ts@.contains(kind)) by {
                    assert(ts@[i as int] == kind);
                }
            }
            return true;
        }
        i += 1;
    }
    proof {
        assert(!ts@.contains(kind));
    }
    false
}

/// Decides whether this node's kind passes the filter.
fn kind_eligible_exec(kind: ItemType, filters: &Option<SearchFilters>) -> (r: bool)
    ensures
        r == kind_eligible(kind, filters_view(*filters)),
{
    match filters {
        None => true,
        Some(f) => match &f.types {
            None => true,
            Some(ts) => ts.len() == 0 || contains_kind(ts, kind),
        },
    }
}

/// Appends the match spans of one line, numbered `lineno`, to `out`.
fn scan_line(line: &String, lineno: usize, lq: &Vec<char>, out: &mut Vec<SearchMatch>)
    requires
        lq@.len() >= 1,
    ensures
        matches_view(final(out)@) == matches_view(old(out)@) + line_matches(
            line@,
            lineno as int,
            lq@,
        ),
{
    let ghost base = matches_view(old(out)@);
    let lowered = to_lower(line.as_str());
    let lc = chars_of(lowered.as_str());
    if !(lc.len() < usize::MAX - lq.len()) {
        proof {
            assert(!columns_fit(line@, lq@));
            assert(matches_view(out@) =~= base + line_matches(line@, lineno as int, lq@));
        }
        return ;
    }
    proof {
        assert(columns_fit(line@, lq@));
    }
    let hv = find_hits(&lc, lq);
    let ghost hs = hits(lower_of(line@), lq@);
    proof {
        lemma_hits_are_hits(lower_of(line@), lq@, 0);
    }
    let mut k: usize = 0;
    while k < hv.len()
        invariant
            0 <= k <= hv@.len(),
            lq@.len() >= 1,
            lc@ == lower_of(line@),
            lc@.len() < usize::MAX - lq@.len(),
            hv@.map_values(|x: usize| x as int) == hs,
            hs == hits(lower_of(line@), lq@),
            forall|t: int| 0 <= t < hs.len() ==> is_hit(lower_of(line@), lq@, hs[t]),
            columns_fit(line@, lq@),
            out@.len() == old(out)@.len() + k,
            forall|t: int|
                0 <= t < old(out)@.len() ==> #[trigger] out@[t] == old(out)@[t],
            forall|t: int|
                0 <= t < k ==> (#[trigger] out@[old(out)@.len() + t])@ == (MatchView {
                    line_content: line@,
                    line_number: lineno as int,
                    start_column: hs[t] + 1,
                    end_column: hs[t] + 1 + lq@.len(),
                }),
        decreases hv@.len() - k,
    {
        let j = hv[k];
        proof {
            assert(hs[k as int] == j as int);
            assert(is_hit(lower_of(line@), lq@, j as int));
        }
        let m = SearchMatch {
            line_content: line.clone(),
            line_number: lineno,
            start_column: j + 1,
            end_column: j + 1 + lq.len(),
        };
        out.push(m);
        k += 1;
    }
    proof {
        let lm = line_matches(line@, lineno as int, lq@);
        assert(lm.len() == hs.len());
        assert(hv@.len() == hs.len());
        assert forall|u: int| 0 <= u < matches_view(out@).len() implies matches_view(out@)[u] == (
        base + lm)[u] by {
            assert(matches_view(out@)[u] == out@[u]@);
            if u < base.len() {
                assert(out@[u] == old(out)@[u]);
            } else {
                let t = u - base.len();
                assert(out@[old(out)@.len() + t]@ == (MatchView {
                    line_content: line@,
                    line_number: lineno as int,
                    start_column: hs[t] + 1,
                    end_column: hs[t] + 1 + lq@.len(),
                }));
                assert(lm[t] == (MatchView {
                    line_content: line@,
                    line_number: lineno as int,
                    start_column: hs[t] + 1,
                    end_column: hs[t] + 1 + lq@.len(),
                }));
            }
        }
        assert(matches_view(out@) =~= base + lm);
    }
}

/// Appends the match spans of every content line to `out`.
fn scan_content(content: &String, lq: &Vec<char>, out: &mut Vec<SearchMatch>)
    requires
        lq@.len() >= 1,
    ensures
        matches_view(final(out)@) == matches_view(old(out)@) + content_matches_from(
            lines_of(content@),
            lq@,
            0,
        ),
{
    let ghost base = matches_view(old(out)@);
    let ghost lv = lines_of(content@);
    let lines = split_lines(content.as_str());
    proof {
        assert(lines@.len() == lv.len());
        assert forall|t: int| 0 <= t < lines@.len() implies (#[trigger] lines@[t])@ == lv[t] by {
            assert(lines_view(lines@)[t] == lines@[t]@);
        }
    }
    let mut k: usize = 0;
    while k < lines.len()
        invariant
            0 <= k <= lines@.len(),
            lq@.len() >= 1,
            lv == lines_of(content@),
            lines@.len() == lv.len(),
            forall|t: int| 0 <= t < lines@.len() ==> (#[trigger] lines@[t])@ == lv[t],
            matches_view(out@) + content_matches_from(lv, lq@, k as int) == base
                + content_matches_from(lv, lq@, 0),
        decreases lines@.len() - k,
    {
        scan_line(&lines[k], k + 1, lq, out);
        k += 1;
        proof {
            assert(matches_view(out@) + content_matches_from(lv, lq@, k as int) =~= base
                + content_matches_from(lv, lq@, 0));
        }
    }
    proof {
        assert(matches_view(out@) =~= base + content_matches_from(lv, lq@, 0));
    }
}

/// Appends the results of one subtree's preorder walk to `out`.
fn search_node_exec(
    node: &TreeItem,
    lq: &Vec<char>,
    filters: &Option<SearchFilters>,
    out: &mut Vec<SearchResult>,
)
    requires
        lq@.len() >= 1,
    ensures
        results_view(final(out)@) == results_view(old(out)@) + search_node(
            node_view(*node),
            lq@,
            filters_view(*filters),
        ),
    decreases node,
{
    let ghost base = results_view(old(out)@);
    let eligible = kind_eligible_exec(node.item_type, filters);
    let mut ms: Vec<SearchMatch> = Vec::new();
    let mut name_hit = false;
    if eligible {
        let lowered = to_lower(node.name.as_str());
        let ln = chars_of(lowered.as_str());
        name_hit = contains_sub(&ln, lq);
        if node.item_type == ItemType::Prompt {
            match &node.content {
                Some(content) => {
                    scan_content(content, lq, &mut ms);
                },
                None => {},
            }
        }
    }
    proof {
        if eligible {
            assert(matches_view(ms@) =~= node_matches(node_view(*node), lq@));
        }
    }
    if eligible && (name_hit || ms.len() > 0) {
        let r = SearchResult {
            item_id: node.id.clone(),
            item_name: node.name.clone(),
            item_type: node.item_type,
            matches: ms,
            last_modified: node.metadata.last_modified,
        };
        proof {
            assert(r@ =~= result_of(node_view(*node), lq@));
        }
        out.push(r);
    }
    let ghost mid = results_view(out@);
    proof {
        assert(mid =~= base + (if kind_eligible(node.item_type, filters_view(*filters))
            && node_qualifies(node_view(*node), lq@) {
            seq![result_of(node_view(*node), lq@)]
        } else {
            Seq::<ResultView>::empty()
        }));
    }
    search_forest_exec(&node.children, lq, filters, out);
    proof {
        assert(results_view(out@) =~= base + search_node(
            node_view(*node),
            lq@,
            filters_view(*filters),
        ));
    }
}

/// Appends the results of a preorder walk of the forest to `out`.
pub fn search_forest_exec(
    nodes: &Vec<TreeItem>,
    lq: &Vec<char>,
    filters: &Option<SearchFilters>,
    out: &mut Vec<SearchResult>,
)
    requires
        lq@.len() >= 1,
    ensures
        results_view(final(out)@) == results_view(old(out)@) + search_results(
            forest_view(nodes@),
            lq@,
            filters_view(*filters),
        ),
    decreases nodes,
{
    let ghost base = results_view(old(out)@);
    let ghost fv = forest_view(nodes@);
    proof {
        lemma_forest_view(nodes@);
    }
    let mut i: usize = 0;
    proof {
        assert(fv.skip(0) =~= fv);
    }
    while i < nodes.len()
        invariant
            0 <= i <= nodes@.len(),
            lq@.len() >= 1,
            fv == forest_view(nodes@),
            fv.len() == nodes@.len(),
            forall|j: int| 0 <= j < nodes@.len() ==> fv[j] == node_view(nodes@[j]),
            results_view(out@) + search_results(fv.skip(i as int), lq@, filters_view(*filters))
                == base + search_results(fv, lq@, filters_view(*filters)),
        decreases nodes@.len() - i,
    {
        proof {
            assert(decreases_to!(nodes => nodes[i as int]));
            assert(fv.skip(i as int).len() > 0);
            assert(fv.skip(i as int)[0] == fv[i as int]);
            assert(fv.skip(i as int).drop_first() =~= fv.skip(i as int + 1));
        }
        search_node_exec(&nodes[i], lq, filters, out);
        i += 1;
    }
    proof {
        assert(fv.skip(i as int) =~= Seq::<NodeView>::empty());
        assert(results_view(out@) =~= base + search_results(fv, lq@, filters_view(*filters)));
    }
}

impl Store {
    /// Searches names and prompt content for the query, case-insensitively.
    /// A blank query reports nothing; otherwise the results are exactly the
    /// preorder walk's, overlap-inclusive per line.
    pub fn search(&self, query: String, filters: Option<SearchFilters>) -> (r: Vec<SearchResult>)
        ensures
            is_blank(query@) ==> r@.len() == 0,
            !is_blank(query@) ==> results_view(r@) == search_results(
                self@,
                lower_of(query@),
                filters_view(filters),
            ),
    {
        let mut results: Vec<SearchResult> = Vec::new();
        if check_blank(query.as_str()) {
            return results;
        }
        let lowered = to_lower(query.as_str());
        let lq = chars_of(lowered.as_str());
        proof {
            assert(query@.len() > 0);
            assert(lq@.len() >= 1);
        }
        search_forest_exec(&self.data, &lq, &filters, &mut results);
        results
    }
}

} // verus!
