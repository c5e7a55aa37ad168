//! The data model: tree nodes, their metadata, and search records, together
//! with the mathematical views that the store's contracts are stated over.

use vstd::prelude::*;
use vstd::string::StringExecFns;

verus! {

/// The closed category of a node.
#[derive(Clone, Copy, Debug, PartialEq, Eq, Structural)]
pub enum ItemType {
    Provider,
    Model,
    Version,
    Prompt,
    Settings,
}

/// A snapshot of a prompt's content at some time.
pub struct PromptVersion {
    pub id: String,
    pub timestamp: i64,
    pub content: String,
    pub label: Option<String>,
}

/// Descriptive fields attached to every node.
pub struct ItemMetadata {
    pub description: Option<String>,
    pub tags: Option<Vec<String>>,
    pub last_modified: Option<i64>,
}

/// One record in the forest. `children` is the owning edge; `parent_id` is an
/// informational back-reference, never used for traversal.
pub struct TreeItem {
    pub id: String,
    pub name: String,
    pub item_type: ItemType,
    pub children: Vec<TreeItem>,
    pub parent_id: Option<String>,
    pub content: Option<String>,
    pub versions: Option<Vec<PromptVersion>>,
    pub metadata: ItemMetadata,
}

/// One located occurrence of a query within one line of a prompt's content.
/// Columns are 1-based character offsets; `end_column` is exclusive.
pub struct SearchMatch {
    pub line_content: String,
    pub line_number: usize,
    pub start_column: usize,
    pub end_column: usize,
}

/// One matching node, with all its per-line matches.
pub struct SearchResult {
    pub item_id: String,
    pub item_name: String,
    pub item_type: ItemType,
    pub matches: Vec<SearchMatch>,
    pub last_modified: Option<i64>,
}

/// Restrictions on a search: an optional set of kinds, and a date bucket that
/// the schema carries but the engine does not evaluate.
pub struct SearchFilters {
    pub types: Option<Vec<ItemType>>,
    pub date: Option<String>,
}

/// How an operation can fail. Persistence and lock failures belong to the
/// caller that owns the file and the lock, not to this store.
#[derive(Clone, Copy, Debug, PartialEq, Eq, Structural)]
pub enum StoreError {
    ParentNotFound,
    ItemNotFound,
    CycleRejected,
}

impl StoreError {
    /// A short display string for each failure, suitable for a UI.
    pub fn message(&self) -> (r: String)
        ensures
            r@ == self.spec_message(),
    {
        match self {
            StoreError::ParentNotFound => String::from_str("Parent not found"),
            StoreError::ItemNotFound => String::from_str("Item not found"),
            StoreError::CycleRejected => String::from_str("Move would create a cycle"),
        }
    }

    pub open spec fn spec_message(&self) -> Seq<char> {
        match self {
            StoreError::ParentNotFound => "Parent not found"@,
            StoreError::ItemNotFound => "Item not found"@,
            StoreError::CycleRejected => "Move would create a cycle"@,
        }
    }
}

/// The mathematical value of a `PromptVersion`.
#[verifier::ext_equal]
pub ghost struct VersionView {
    pub id: Seq<char>,
    pub timestamp: int,
    pub content: Seq<char>,
    pub label: Option<Seq<char>>,
}

/// The mathematical value of an `ItemMetadata`.
#[verifier::ext_equal]
pub ghost struct MetaView {
    pub description: Option<Seq<char>>,
    pub tags: Option<Seq<Seq<char>>>,
    pub last_modified: Option<int>,
}

/// The mathematical value of a `TreeItem`: the same shape, over sequences.
#[verifier::ext_equal]
pub ghost struct NodeView {
    pub id: Seq<char>,
    pub name: Seq<char>,
    pub kind: ItemType,
    pub children: Seq<NodeView>,
    pub parent_id: Option<Seq<char>>,
    pub content: Option<Seq<char>>,
    pub versions: Option<Seq<VersionView>>,
    pub metadata: MetaView,
}

/// The mathematical value of a `SearchMatch`.
#[verifier::ext_equal]
pub ghost struct MatchView {
    pub line_content: Seq<char>,
    pub line_number: int,
    pub start_column: int,
    pub end_column: int,
}

/// The mathematical value of a `SearchResult`.
#[verifier::ext_equal]
pub ghost struct ResultView {
    pub item_id: Seq<char>,
    pub item_name: Seq<char>,
    pub item_kind: ItemType,
    pub matches: Seq<MatchView>,
    pub last_modified: Option<int>,
}

/// The mathematical value of a `SearchFilters`.
#[verifier::ext_equal]
pub ghost struct FiltersView {
    pub types: Option<Seq<ItemType>>,
    pub date: Option<Seq<char>>,
}

pub open spec fn opt_str_view(o: Option<String>) -> Option<Seq<char>> {
    match o {
        Some(s) => Some(s@),
        None => None,
    }
}

pub open spec fn opt_int_view(o: Option<i64>) -> Option<int> {
    match o {
        Some(t) => Some(t as int),
        None => None,
    }
}

pub open spec fn strings_view(v: Seq<String>) -> Seq<Seq<char>> {
    Seq::new(v.len(), |i: int| v[i]@)
}

impl View for PromptVersion {
    type V = VersionView;

    open spec fn view(&self) -> VersionView {
        VersionView {
            id: self.id@,
            timestamp: self.timestamp as int,
            content: self.content@,
            label: opt_str_view(self.label),
        }
    }
}

pub open spec fn versions_view(v: Seq<PromptVersion>) -> Seq<VersionView> {
    Seq::new(v.len(), |i: int| v[i]@)
}

impl View for ItemMetadata {
    type V = MetaView;

    open spec fn view(&self) -> MetaView {
        MetaView {
            description: opt_str_view(self.description),
            tags: match self.tags {
                Some(v) => Some(strings_view(v@)),
                None => None,
            },
            last_modified: opt_int_view(self.last_modified),
        }
    }
}

/// The view of a node, mutually recursive with the view of a forest.
pub open spec fn node_view(t: TreeItem) -> NodeView
    decreases t,
{
    NodeView {
        id: t.id@,
        name: t.name@,
        kind: t.item_type,
        children: forest_view(t.children@),
        parent_id: opt_str_view(t.parent_id),
        content: opt_str_view(t.content),
        versions: match t.versions {
            Some(v) => Some(versions_view(v@)),
            None => None,
        },
        metadata: t.metadata@,
    }
}

/// The view of a forest: each node's view, in order.
pub open spec fn forest_view(s: Seq<TreeItem>) -> Seq<NodeView>
    decreases s,
{
    if s.len() == 0 {
        Seq::empty()
    } else {
        seq![node_view(s[0])] + forest_view(s.drop_first())
    }
}

impl View for TreeItem {
    type V = NodeView;

    open spec fn view(&self) -> NodeView {
        node_view(*self)
    }
}

impl View for SearchMatch {
    type V = MatchView;

    open spec fn view(&self) -> MatchView {
        MatchView {
            line_content: self.line_content@,
            line_number: self.line_number as int,
            start_column: self.start_column as int,
            end_column: self.end_column as int,
        }
    }
}

pub open spec fn matches_view(v: Seq<SearchMatch>) -> Seq<MatchView> {
    Seq::new(v.len(), |i: int| v[i]@)
}

impl View for SearchResult {
    type V = ResultView;

    open spec fn view(&self) -> ResultView {
        ResultView {
            item_id: self.item_id@,
            item_name: self.item_name@,
            item_kind: self.item_type,
            matches: matches_view(self.matches@),
            last_modified: opt_int_view(self.last_modified),
        }
    }
}

impl View for SearchFilters {
    type V = FiltersView;

    open spec fn view(&self) -> FiltersView {
        FiltersView {
            types: match self.types {
                Some(v) => Some(v@),
                None => None,
            },
            date: opt_str_view(self.date),
        }
    }
}

pub open spec fn results_view(v: Seq<SearchResult>) -> Seq<ResultView> {
    Seq::new(v.len(), |i: int| v[i]@)
}

pub(crate) fn clone_opt_string(o: &Option<String>) -> (r: Option<String>)
    ensures
        opt_str_view(r) == opt_str_view(*o),
{
    match o {
        Some(s) => Some(s.clone()),
        None => None,
    }
}

pub(crate) fn clone_strings(v: &Vec<String>) -> (r: Vec<String>)
    ensures
        strings_view(r@) == strings_view(v@),
{
    let mut r: Vec<String> = Vec::new();
    let mut i: usize = 0;
    while i < v.len()
        invariant
            0 <= i <= v@.len(),
            r@.len() == i,
            forall|j: int| 0 <= j < i ==> r@[j]@ == v@[j]@,
        decreases v@.len() - i,
    {
        r.push(v[i].clone());
        i += 1;
    }
    proof {
        assert(strings_view(r@) =~= strings_view(v@));
    }
    r
}

pub(crate) fn clone_versions(v: &Vec<PromptVersion>) -> (r: Vec<PromptVersion>)
    ensures
        versions_view(r@) == versions_view(v@),
{
    let mut r: Vec<PromptVersion> = Vec::new();
    let mut i: usize = 0;
    while i < v.len()
        invariant
            0 <= i <= v@.len(),
            r@.len() == i,
            forall|j: int| 0 <= j < i ==> r@[j]@ == v@[j]@,
        decreases v@.len() - i,
    {
        let p = PromptVersion {
            id: v[i].id.clone(),
            timestamp: v[i].timestamp,
            content: v[i].content.clone(),
            label: clone_opt_string(&v[i].label),
        };
        r.push(p);
        i += 1;
    }
    proof {
        assert(versions_view(r@) =~= versions_view(v@));
    }
    r
}

impl ItemMetadata {
    /// A copy with the same view.
    pub fn duplicate(&self) -> (r: ItemMetadata)
        ensures
            r@ == self@,
    {
        ItemMetadata {
            description: clone_opt_string(&self.description),
            tags: match &self.tags {
                Some(v) => Some(clone_strings(v)),
                None => None,
            },
            last_modified: self.last_modified,
        }
    }
}

impl TreeItem {
    /// A structural copy of the whole subtree, with the same view.
    pub fn deep_clone(&self) -> (r: TreeItem)
        ensures
            r@ == self@,
        decreases self,
    {
        let r = TreeItem {
            id: self.id.clone(),
            name: self.name.clone(),
            item_type: self.item_type,
            children: clone_forest(&self.children),
            parent_id: clone_opt_string(&self.parent_id),
            content: clone_opt_string(&self.content),
            versions: match &self.versions {
                Some(v) => Some(clone_versions(v)),
                None => None,
            },
            metadata: self.metadata.duplicate(),
        };
        proof {
            assert(r@ =~= self@);
        }
        r
    }
}

impl TreeItem {
    /// A copy of this node's own fields, placed over the given children.
    pub fn with_children(&self, children: Vec<TreeItem>) -> (r: TreeItem)
        ensures
            r@ == (NodeView { children: forest_view(children@), ..self@ }),
    {
        let r = TreeItem {
            id: self.id.clone(),
            name: self.name.clone(),
            item_type: self.item_type,
            children,
            parent_id: clone_opt_string(&self.parent_id),
            content: clone_opt_string(&self.content),
            versions: match &self.versions {
                Some(v) => Some(clone_versions(v)),
                None => None,
            },
            metadata: self.metadata.duplicate(),
        };
        proof {
            assert(r@ =~= (NodeView { children: forest_view(r.children@), ..self@ }));
        }
        r
    }
}

/// A structural copy of a whole forest, with the same view.
pub fn clone_forest(nodes: &Vec<TreeItem>) -> (r: Vec<TreeItem>)
    ensures
        forest_view(r@) == forest_view(nodes@),
        r@.len() == nodes@.len(),
        forall|j: int| 0 <= j < nodes@.len() ==> node_view(r@[j]) == node_view(nodes@[j]),
    decreases nodes,
{
    let mut r: Vec<TreeItem> = Vec::new();
    let mut i: usize = 0;
    while i < nodes.len()
        invariant
            0 <= i <= nodes@.len(),
            r@.len() == i,
            forall|j: int| 0 <= j < i ==> node_view(r@[j]) == node_view(nodes@[j]),
        decreases nodes@.len() - i,
    {
        proof {
            assert(decreases_to!(nodes => nodes[i as int]));
        }
        let c = nodes[i].deep_clone();
        r.push(c);
        i += 1;
    }
    proof {
        lemma_forest_view(r@);
        lemma_forest_view(nodes@);
        assert(forest_view(r@) =~= forest_view(nodes@));
    }
    r
}

/// `forest_view` is the element-wise view.
pub proof fn lemma_forest_view(s: Seq<TreeItem>)
    ensures
        forest_view(s).len() == s.len(),
        forall|i: int| 0 <= i < s.len() ==> forest_view(s)[i] == node_view(s[i]),
    decreases s,
{
    if s.len() > 0 {
        lemma_forest_view(s.drop_first());
        assert forall|i: int| 0 <= i < s.len() implies forest_view(s)[i] == node_view(s[i]) by {
            if i > 0 {
                assert(s.drop_first()[i - 1] == s[i]);
            }
        }
    }
}

} // verus!
