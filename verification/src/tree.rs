//! The namespace tree: a flat sequence of dot-delimited tensor (and
//! optional metadata) records becomes a forest of group/leaf nodes with
//! cached aggregates, natural-order siblings, depth-first flattening, and
//! expand/collapse state addressed by row index or by name.

use vstd::multiset::Multiset;
use vstd::prelude::*;
use vstd::string::{StrSliceExecFns, StringExecFns};

use crate::natsort::{lemma_name_le_total, lemma_name_le_trans, name_le, name_le_exec};

verus! {

/// One tensor record, the common currency the tree consumes, whatever
/// decoder produced it.
#[derive(Debug, Clone, PartialEq)]
pub struct TensorInfo {
    pub name: String,
    pub dtype: String,
    pub shape: Vec<usize>,
    pub size_bytes: usize,
    pub num_elements: usize,
}

/// The mathematical shape of a tensor record.
pub struct TensorInfoV {
    pub name: Seq<char>,
    pub dtype: Seq<char>,
    pub shape: Seq<usize>,
    pub size_bytes: usize,
    pub num_elements: usize,
}

impl View for TensorInfo {
    type V = TensorInfoV;

    open spec fn view(&self) -> TensorInfoV {
        TensorInfoV {
            name: self.name@,
            dtype: self.dtype@,
            shape: self.shape@,
            size_bytes: self.size_bytes,
            num_elements: self.num_elements,
        }
    }
}

/// One metadata record: a key with its rendered value and type label.
#[derive(Debug, Clone, PartialEq)]
pub struct MetadataInfo {
    pub name: String,
    pub value: String,
    pub value_type: String,
}

/// The mathematical shape of a metadata record.
pub struct MetadataInfoV {
    pub name: Seq<char>,
    pub value: Seq<char>,
    pub value_type: Seq<char>,
}

impl View for MetadataInfo {
    type V = MetadataInfoV;

    open spec fn view(&self) -> MetadataInfoV {
        MetadataInfoV { name: self.name@, value: self.value@, value_type: self.value_type@ }
    }
}

pub fn clone_tensor_info(t: &TensorInfo) -> (r: TensorInfo)
    ensures
        r@ == t@,
{
    let mut shape: Vec<usize> = Vec::new();
    let mut i: usize = 0;
    while i < t.shape.len()
        invariant
            i <= t.shape@.len(),
            shape@ == t.shape@.subrange(0, i as int),
        decreases t.shape@.len() - i,
    {
        shape.push(t.shape[i]);
        proof {
            assert(shape@ =~= t.shape@.subrange(0, i + 1));
        }
        i = i + 1;
    }
    proof {
        assert(t.shape@.subrange(0, t.shape@.len() as int) =~= t.shape@);
    }
    TensorInfo {
        name: t.name.clone(),
        dtype: t.dtype.clone(),
        shape,
        size_bytes: t.size_bytes,
        num_elements: t.num_elements,
    }
}

pub fn clone_metadata_info(m: &MetadataInfo) -> (r: MetadataInfo)
    ensures
        r@ == m@,
{
    MetadataInfo {
        name: m.name.clone(),
        value: m.value.clone(),
        value_type: m.value_type.clone(),
    }
}

/// A node of the namespace tree: an expandable Group with cached aggregates,
/// a Tensor leaf, or a Metadata leaf.
#[derive(Debug)]
pub enum TreeNode {
    Group {
        name: String,
        children: Vec<TreeNode>,
        expanded: bool,
        tensor_count: usize,
        total_size: usize,
    },
    Tensor { info: TensorInfo },
    Metadata { info: MetadataInfo },
}

/// The name a node sorts and displays by: a group's path segment, a leaf's
/// full record name.
pub open spec fn tree_name(n: TreeNode) -> Seq<char> {
    match n {
        TreeNode::Group { name, .. } => name@,
        TreeNode::Tensor { info } => info.name@,
        TreeNode::Metadata { info } => info.name@,
    }
}

impl TreeNode {
    pub fn name(&self) -> (r: &str)
        ensures
            r@ == tree_name(*self),
    {
        match self {
            TreeNode::Group { name, .. } => name.as_str(),
            TreeNode::Tensor { info } => info.name.as_str(),
            TreeNode::Metadata { info } => info.name.as_str(),
        }
    }
}

/// One row of the flattened tree: the visible face of a node, without its
/// subtree.
#[derive(Debug, Clone)]
pub enum RowNode {
    Group { name: String, expanded: bool, tensor_count: usize, total_size: usize },
    Tensor { info: TensorInfo },
    Metadata { info: MetadataInfo },
}

/// The mathematical shape of one row.
pub enum RowV {
    Group { name: Seq<char>, expanded: bool, tensor_count: usize, total_size: usize },
    Tensor { info: TensorInfoV },
    Metadata { info: MetadataInfoV },
}

impl View for RowNode {
    type V = RowV;

    open spec fn view(&self) -> RowV {
        match self {
            RowNode::Group { name, expanded, tensor_count, total_size } => RowV::Group {
                name: name@,
                expanded: *expanded,
                tensor_count: *tensor_count,
                total_size: *total_size,
            },
            RowNode::Tensor { info } => RowV::Tensor { info: info@ },
            RowNode::Metadata { info } => RowV::Metadata { info: info@ },
        }
    }
}

/// The row a node presents: its own fields, subtree dropped.
pub open spec fn spec_row_of(n: TreeNode) -> RowV {
    match n {
        TreeNode::Group { name, children, expanded, tensor_count, total_size } => RowV::Group {
            name: name@,
            expanded,
            tensor_count,
            total_size,
        },
        TreeNode::Tensor { info } => RowV::Tensor { info: info@ },
        TreeNode::Metadata { info } => RowV::Metadata { info: info@ },
    }
}

// ---------------------------------------------------------------------------
// Dot-delimited paths
// ---------------------------------------------------------------------------
/// The length of a name's first segment: its characters up to the first dot.
pub open spec fn seg_len(s: Seq<char>) -> nat
    decreases s.len(),
{
    if s.len() == 0 || s[0] == '.' {
        0
    } else {
        (1 + seg_len(s.drop_first())) as nat
    }
}

pub proof fn lemma_seg_len(s: Seq<char>)
    ensures
        seg_len(s) <= s.len(),
        forall|k: int| 0 <= k < seg_len(s) ==> #[trigger] s[k] != '.',
        seg_len(s) < s.len() ==> s[seg_len(s) as int] == '.',
    decreases s.len(),
{
    if s.len() > 0 && s[0] != '.' {
        lemma_seg_len(s.drop_first());
        assert forall|k: int| 0 <= k < seg_len(s) implies #[trigger] s[k] != '.' by {
            if k > 0 {
                assert(s.drop_first()[k - 1] == s[k]);
            }
        }
        if seg_len(s) < s.len() {
            assert(s.drop_first()[seg_len(s) - 1] == s[seg_len(s) as int]);
        }
    }
}

/// A segment is pinned down by its pointwise description.
pub proof fn lemma_seg_len_eq(s: Seq<char>, m: int)
    requires
        0 <= m <= s.len(),
        forall|k: int| 0 <= k < m ==> #[trigger] s[k] != '.',
        m < s.len() ==> s[m] == '.',
    ensures
        seg_len(s) == m,
    decreases s.len(),
{
    if m > 0 {
        assert(s[0] != '.');
        assert forall|k: int| 0 <= k < m - 1 implies #[trigger] s.drop_first()[k] != '.' by {
            assert(s.drop_first()[k] == s[k + 1]);
        }
        if m - 1 < s.drop_first().len() {
            assert(s.drop_first()[m - 1] == s[m]);
        }
        lemma_seg_len_eq(s.drop_first(), m - 1);
    }
}

/// A name split at its dots: always at least one segment; consecutive dots
/// and leading or trailing dots give empty segments, as the original name
/// spells them.
pub open spec fn spec_split(s: Seq<char>) -> Seq<Seq<char>>
    decreases s.len(),
    via spec_split_decreases
{
    let k = seg_len(s);
    if k == s.len() {
        seq![s]
    } else {
        seq![s.subrange(0, k as int)] + spec_split(s.subrange(k as int + 1, s.len() as int))
    }
}

#[via_fn]
proof fn spec_split_decreases(s: Seq<char>) {
    lemma_seg_len(s);
}

pub open spec fn string_views(s: Seq<String>) -> Seq<Seq<char>> {
    Seq::new(s.len(), |i: int| s[i]@)
}

/// Splits a name into its dot-delimited segments.
#[verifier::loop_isolation(false)]
pub fn split_dots(name: &str) -> (r: Vec<String>)
    ensures
        string_views(r@) == spec_split(name@),
        r@.len() >= 1,
{
    let n = name.unicode_len();
    let mut out: Vec<String> = Vec::new();
    let mut i: usize = 0;
    proof {
        assert(string_views(out@) =~= Seq::<Seq<char>>::empty());
        assert(name@.subrange(0, n as int) =~= name@);
    }
    loop
        invariant
            i <= n,
            n == name@.len(),
            spec_split(name@) == string_views(out@) + spec_split(
                name@.subrange(i as int, n as int),
            ),
        decreases n - i,
    {
        let mut j: usize = i;
        while j < n
            invariant
                i <= j <= n,
                n == name@.len(),
                forall|k: int| i <= k < j ==> #[trigger] name@[k] != '.',
            decreases n - j,
        {
            if name.get_char(j) == '.' {
                break ;
            }
            j = j + 1;
        }
        let ghost suffix = name@.subrange(i as int, n as int);
        proof {
            assert forall|k: int| 0 <= k < j - i implies #[trigger] suffix[k] != '.' by {
                assert(suffix[k] == name@[i + k]);
            }
            if j - i < suffix.len() {
                assert(suffix[(j - i) as int] == name@[j as int]);
            }
            lemma_seg_len_eq(suffix, j - i);
            assert(suffix.subrange(0, (j - i) as int) =~= name@.subrange(i as int, j as int));
        }
        let seg = name.substring_char(i, j);
        let ghost old_out = out@;
        out.push(String::from_str(seg));
        proof {
            assert(string_views(out@) =~= string_views(old_out).push(seg@));
        }
        if j == n {
            proof {
                assert(seg_len(suffix) == suffix.len());
                assert(spec_split(suffix) == seq![suffix]);
                assert(suffix =~= seg@);
                assert(string_views(out@) =~= string_views(old_out) + seq![seg@]);
            }
            return out;
        }
        proof {
            assert(suffix.subrange((j - i) + 1, suffix.len() as int) =~= name@.subrange(
                j + 1,
                n as int,
            ));
            assert(spec_split(suffix) == seq![seg@] + spec_split(
                name@.subrange(j + 1, n as int),
            ));
            assert(string_views(out@) + spec_split(name@.subrange(j + 1, n as int))
                =~= string_views(old_out) + (seq![seg@] + spec_split(
                name@.subrange(j + 1, n as int),
            )));
        }
        i = j + 1;
    }
}

// ---------------------------------------------------------------------------
// Structural predicates
// ---------------------------------------------------------------------------
/// How many tensor leaves stand anywhere beneath a node (a leaf counts
/// itself).
pub open spec fn node_tc(n: TreeNode) -> nat
    decreases n,
{
    match n {
        TreeNode::Group { children, .. } => forest_tc(children@),
        TreeNode::Tensor { .. } => 1,
        TreeNode::Metadata { .. } => 0,
    }
}

pub open spec fn forest_tc(s: Seq<TreeNode>) -> nat
    decreases s,
{
    if s.len() == 0 {
        0
    } else {
        forest_tc(s.drop_last()) + node_tc(s.last())
    }
}

/// The total byte size of all tensor leaves anywhere beneath a node.
pub open spec fn node_ts(n: TreeNode) -> nat
    decreases n,
{
    match n {
        TreeNode::Group { children, .. } => forest_ts(children@),
        TreeNode::Tensor { info } => info.size_bytes as nat,
        TreeNode::Metadata { .. } => 0,
    }
}

pub open spec fn forest_ts(s: Seq<TreeNode>) -> nat
    decreases s,
{
    if s.len() == 0 {
        0
    } else {
        forest_ts(s.drop_last()) + node_ts(s.last())
    }
}

pub open spec fn clamp_usize(n: nat) -> usize {
    if n > usize::MAX {
        usize::MAX
    } else {
        n as usize
    }
}

/// Every group's cached aggregates equal the count and total size of the
/// tensor leaves anywhere beneath it (sizes clamped at the machine limit).
pub open spec fn node_agg_ok(n: TreeNode) -> bool
    decreases n,
{
    match n {
        TreeNode::Group { children, tensor_count, total_size, .. } => {
            &&& tensor_count == clamp_usize(forest_tc(children@))
            &&& total_size == clamp_usize(forest_ts(children@))
            &&& forest_agg_ok(children@)
        },
        _ => true,
    }
}

pub open spec fn forest_agg_ok(s: Seq<TreeNode>) -> bool
    decreases s,
{
    forall|i: int| 0 <= i < s.len() ==> node_agg_ok(#[trigger] s[i])
}

/// Siblings stand in natural name order, at every level.
pub open spec fn forest_sorted(s: Seq<TreeNode>) -> bool
    decreases s,
{
    (forall|i: int, j: int|
        0 <= i < j < s.len() ==> name_le(tree_name(#[trigger] s[i]), tree_name(#[trigger] s[j])))
        && (forall|i: int| 0 <= i < s.len() ==> node_sorted(#[trigger] s[i]))
}

pub open spec fn node_sorted(n: TreeNode) -> bool
    decreases n,
{
    match n {
        TreeNode::Group { children, .. } => forest_sorted(children@),
        _ => true,
    }
}

/// Every tensor leaf sits exactly where its dotted name says: under the
/// groups spelling the name's segments, its own segment last.
pub open spec fn node_paths_ok(n: TreeNode, prefix: Seq<Seq<char>>) -> bool
    decreases n,
{
    match n {
        TreeNode::Group { name, children, .. } => forest_paths_ok(children@, prefix.push(name@)),
        TreeNode::Tensor { info } => {
            &&& spec_split(info.name@).len() == prefix.len() + 1
            &&& spec_split(info.name@).take(prefix.len() as int) == prefix
        },
        TreeNode::Metadata { .. } => true,
    }
}

pub open spec fn forest_paths_ok(s: Seq<TreeNode>, prefix: Seq<Seq<char>>) -> bool
    decreases s,
{
    forall|i: int| 0 <= i < s.len() ==> node_paths_ok(#[trigger] s[i], prefix)
}

/// Groups at the top level are expanded; every nested group is collapsed.
pub open spec fn node_exp_ok(n: TreeNode, top: bool) -> bool
    decreases n,
{
    match n {
        TreeNode::Group { children, expanded, .. } => expanded == top && forest_exp_ok(
            children@,
            false,
        ),
        _ => true,
    }
}

pub open spec fn forest_exp_ok(s: Seq<TreeNode>, top: bool) -> bool
    decreases s,
{
    forall|i: int| 0 <= i < s.len() ==> node_exp_ok(#[trigger] s[i], top)
}

/// Whether the record stands as a tensor leaf anywhere in the subtree.
pub open spec fn node_has_leaf(n: TreeNode, info: TensorInfoV) -> bool
    decreases n,
{
    match n {
        TreeNode::Group { children, .. } => forest_has_leaf(children@, info),
        TreeNode::Tensor { info: i } => i@ == info,
        TreeNode::Metadata { .. } => false,
    }
}

pub open spec fn forest_has_leaf(s: Seq<TreeNode>, info: TensorInfoV) -> bool
    decreases s,
{
    exists|i: int| 0 <= i < s.len() && node_has_leaf(#[trigger] s[i], info)
}

/// Every group in a tensor tree holds at least one tensor leaf.
pub open spec fn node_groups_nonempty(n: TreeNode) -> bool
    decreases n,
{
    match n {
        TreeNode::Group { children, .. } => forest_tc(children@) >= 1 && forest_groups_nonempty(
            children@,
        ),
        _ => true,
    }
}

pub open spec fn forest_groups_nonempty(s: Seq<TreeNode>) -> bool
    decreases s,
{
    forall|i: int| 0 <= i < s.len() ==> node_groups_nonempty(#[trigger] s[i])
}

// ---------------------------------------------------------------------------
// Leaf accounting
// ---------------------------------------------------------------------------
/// The tensor records held anywhere beneath a node, with multiplicity.
pub open spec fn node_leaves(n: TreeNode) -> Multiset<TensorInfoV>
    decreases n,
{
    match n {
        TreeNode::Group { children, .. } => forest_leaves(children@),
        TreeNode::Tensor { info } => Multiset::singleton(info@),
        TreeNode::Metadata { .. } => Multiset::empty(),
    }
}

pub open spec fn forest_leaves(s: Seq<TreeNode>) -> Multiset<TensorInfoV>
    decreases s,
{
    if s.len() == 0 {
        Multiset::empty()
    } else {
        forest_leaves(s.drop_last()).add(node_leaves(s.last()))
    }
}

/// A subtree's tensor count is the size of its leaf multiset: the cached
/// aggregates count exactly the leaves the multiset holds.
pub proof fn lemma_node_tc_leaves(n: TreeNode)
    ensures
        node_tc(n) == node_leaves(n).len(),
    decreases n,
{
    broadcast use vstd::multiset::group_multiset_axioms;

    match n {
        TreeNode::Group { children, .. } => {
            lemma_forest_tc_leaves(children@);
        },
        _ => {},
    }
}

pub proof fn lemma_forest_tc_leaves(s: Seq<TreeNode>)
    ensures
        forest_tc(s) == forest_leaves(s).len(),
    decreases s,
{
    broadcast use vstd::multiset::group_multiset_axioms;

    if s.len() > 0 {
        lemma_forest_tc_leaves(s.drop_last());
        lemma_node_tc_leaves(s.last());
    }
}

/// The records of a run, as a multiset of their mathematical shapes.
pub open spec fn record_views_ms(s: Seq<TensorInfo>) -> Multiset<TensorInfoV>
    decreases s.len(),
{
    if s.len() == 0 {
        Multiset::empty()
    } else {
        record_views_ms(s.drop_last()).insert(s.last()@)
    }
}

/// The metadata records of a run, as a multiset of their mathematical
/// shapes.
pub open spec fn meta_views_ms(s: Seq<MetadataInfo>) -> Multiset<MetadataInfoV>
    decreases s.len(),
{
    if s.len() == 0 {
        Multiset::empty()
    } else {
        meta_views_ms(s.drop_last()).insert(s.last()@)
    }
}

/// The metadata leaves standing directly in a sibling run, with
/// multiplicity.
pub open spec fn metas_of(s: Seq<TreeNode>) -> Multiset<MetadataInfoV>
    decreases s.len(),
{
    if s.len() == 0 {
        Multiset::empty()
    } else {
        match node_meta(s.last()) {
            Some(mi) => metas_of(s.drop_last()).insert(mi),
            None => metas_of(s.drop_last()),
        }
    }
}

/// No metadata leaf stands anywhere in the forest.
pub open spec fn node_no_meta(n: TreeNode) -> bool
    decreases n,
{
    match n {
        TreeNode::Group { children, .. } => forest_no_meta(children@),
        TreeNode::Tensor { .. } => true,
        TreeNode::Metadata { .. } => false,
    }
}

pub open spec fn forest_no_meta(s: Seq<TreeNode>) -> bool
    decreases s,
{
    forall|i: int| 0 <= i < s.len() ==> node_no_meta(#[trigger] s[i])
}

/// How many groups of this name stand directly in a sibling run.
pub open spec fn group_name_count(s: Seq<TreeNode>, nm: Seq<char>) -> nat
    decreases s.len(),
{
    if s.len() == 0 {
        0
    } else {
        (group_name_count(s.drop_last(), nm) + (match s.last() {
            TreeNode::Group { name, .. } => if name@ == nm {
                1nat
            } else {
                0nat
            },
            _ => 0nat,
        })) as nat
    }
}

/// No two sibling groups carry the same name, at any level.
pub open spec fn node_group_names_unique(n: TreeNode) -> bool
    decreases n,
{
    match n {
        TreeNode::Group { children, .. } => forest_group_names_unique(children@),
        _ => true,
    }
}

pub open spec fn forest_group_names_unique(s: Seq<TreeNode>) -> bool
    decreases s,
{
    (forall|nm: Seq<char>| #[trigger] group_name_count(s, nm) <= 1) && (forall|i: int|
        0 <= i < s.len() ==> node_group_names_unique(#[trigger] s[i]))
}

/// Distinct sibling positions never hold equally named groups when the
/// forest's group names are unique.
pub proof fn lemma_unique_group_names(s: Seq<TreeNode>, i: int, j: int)
    requires
        forest_group_names_unique(s),
        0 <= i < j < s.len(),
        s[i] matches TreeNode::Group { .. },
        s[j] matches TreeNode::Group { .. },
    ensures
        tree_name(s[i]) != tree_name(s[j]),
{
    if tree_name(s[i]) == tree_name(s[j]) {
        lemma_group_count_pair(s, i, j, tree_name(s[i]));
    }
}

proof fn lemma_group_count_at_least(s: Seq<TreeNode>, i: int, nm: Seq<char>)
    requires
        0 <= i < s.len(),
        s[i] matches TreeNode::Group { .. },
        tree_name(s[i]) == nm,
    ensures
        group_name_count(s, nm) >= 1 + group_name_count(s.subrange(0, i), nm),
    decreases s.len(),
{
    if i == s.len() - 1 {
        assert(s.subrange(0, i) =~= s.drop_last());
    } else {
        assert(s.drop_last()[i] == s[i]);
        lemma_group_count_at_least(s.drop_last(), i, nm);
        assert(s.drop_last().subrange(0, i) =~= s.subrange(0, i));
    }
}

proof fn lemma_group_count_pair(s: Seq<TreeNode>, i: int, j: int, nm: Seq<char>)
    requires
        0 <= i < j < s.len(),
        s[i] matches TreeNode::Group { .. },
        s[j] matches TreeNode::Group { .. },
        tree_name(s[i]) == nm,
        tree_name(s[j]) == nm,
    ensures
        group_name_count(s, nm) >= 2,
{
    lemma_group_count_at_least(s, j, nm);
    assert(s.subrange(0, j)[i] == s[i]);
    lemma_group_count_at_least(s.subrange(0, j), i, nm);
}

/// A forest holds a record as a leaf exactly when the record counts in its
/// leaf multiset.
pub proof fn lemma_node_leaves_has(n: TreeNode, info: TensorInfoV)
    ensures
        node_has_leaf(n, info) <==> node_leaves(n).count(info) > 0,
    decreases n,
{
    broadcast use vstd::multiset::group_multiset_axioms;

    match n {
        TreeNode::Group { children, .. } => {
            lemma_forest_leaves_has(children@, info);
        },
        _ => {},
    }
}

pub proof fn lemma_forest_leaves_has(s: Seq<TreeNode>, info: TensorInfoV)
    ensures
        forest_has_leaf(s, info) <==> forest_leaves(s).count(info) > 0,
    decreases s,
{
    broadcast use vstd::multiset::group_multiset_axioms;

    if s.len() > 0 {
        lemma_node_leaves_has(s.last(), info);
        lemma_forest_leaves_has(s.drop_last(), info);
        if forest_has_leaf(s, info) {
            let i = choose|i: int| 0 <= i < s.len() && node_has_leaf(#[trigger] s[i], info);
            if i < s.len() - 1 {
                assert(s.drop_last()[i] == s[i]);
                assert(forest_has_leaf(s.drop_last(), info));
            }
        }
        if forest_leaves(s).count(info) > 0 {
            if forest_leaves(s.drop_last()).count(info) > 0 {
                let i = choose|i: int|
                    0 <= i < s.drop_last().len() && node_has_leaf(#[trigger] s.drop_last()[i], info);
                assert(s[i] == s.drop_last()[i]);
            } else {
                assert(node_has_leaf(s.last(), info));
            }
        }
    }
}

/// A record counts in a run's record multiset exactly when it stands at
/// some position.
pub proof fn lemma_record_views_ms_has(s: Seq<TensorInfo>, info: TensorInfoV)
    ensures
        record_views_ms(s).count(info) > 0 <==> exists|i: int|
            0 <= i < s.len() && (#[trigger] s[i])@ == info,
    decreases s.len(),
{
    broadcast use vstd::multiset::group_multiset_axioms;

    if s.len() > 0 {
        lemma_record_views_ms_has(s.drop_last(), info);
        if record_views_ms(s).count(info) > 0 {
            if record_views_ms(s.drop_last()).count(info) > 0 {
                let i = choose|i: int|
                    0 <= i < s.drop_last().len() && (#[trigger] s.drop_last()[i])@ == info;
                assert(s[i]@ == info);
            } else {
                assert(s[s.len() - 1]@ == info);
            }
        }
        if exists|i: int| 0 <= i < s.len() && (#[trigger] s[i])@ == info {
            let i = choose|i: int| 0 <= i < s.len() && (#[trigger] s[i])@ == info;
            if i < s.len() - 1 {
                assert(s.drop_last()[i] == s[i]);
            }
        }
    }
}

/// Removing one node removes exactly its leaves.
proof fn lemma_forest_leaves_remove(s: Seq<TreeNode>, j: int)
    requires
        0 <= j < s.len(),
    ensures
        forest_leaves(s) == forest_leaves(s.remove(j)).add(node_leaves(s[j])),
    decreases s.len(),
{
    broadcast use vstd::multiset::group_multiset_axioms;

    if j == s.len() - 1 {
        assert(s.remove(j) =~= s.drop_last());
    } else {
        assert(s.remove(j).drop_last() =~= s.drop_last().remove(j));
        assert(s.remove(j).last() == s.last());
        assert(s.drop_last()[j] == s[j]);
        lemma_forest_leaves_remove(s.drop_last(), j);
        assert(forest_leaves(s.drop_last().remove(j)).add(node_leaves(s[j])).add(
            node_leaves(s.last()),
        ) =~= forest_leaves(s.drop_last().remove(j)).add(node_leaves(s.last())).add(
            node_leaves(s[j]),
        ));
    }
}

/// Reordering siblings moves no leaves: two runs holding the same nodes
/// hold the same leaf multiset.
pub proof fn lemma_forest_leaves_perm(x: Seq<TreeNode>, y: Seq<TreeNode>)
    requires
        x.to_multiset() == y.to_multiset(),
    ensures
        forest_leaves(x) == forest_leaves(y),
    decreases x.len(),
{
    broadcast use vstd::seq_lib::group_to_multiset_ensures;
    broadcast use vstd::multiset::group_multiset_axioms;

    if x.len() == 0 {
        assert(y.to_multiset().len() == 0);
        assert(y.len() == 0);
    } else {
        let e = x.last();
        assert(x.to_multiset().count(e) > 0) by {
            assert(x.contains(e));
        }
        assert(y.contains(e));
        let j = choose|j: int| 0 <= j < y.len() && y[j] == e;
        lemma_forest_leaves_remove(y, j);
        assert(x.drop_last() =~= x.remove(x.len() - 1));
        assert(x.drop_last().to_multiset() =~= y.remove(j).to_multiset()) by {
            assert(x.remove(x.len() - 1).to_multiset() =~= x.to_multiset().remove(x[x.len() - 1]));
            assert(y.remove(j).to_multiset() =~= y.to_multiset().remove(y[j]));
        }
        lemma_forest_leaves_perm(x.drop_last(), y.remove(j));
    }
}

/// Removing one node removes exactly its direct metadata leaf, if it is
/// one.
proof fn lemma_metas_of_remove(s: Seq<TreeNode>, j: int)
    requires
        0 <= j < s.len(),
    ensures
        metas_of(s) == (match node_meta(s[j]) {
            Some(mi) => metas_of(s.remove(j)).insert(mi),
            None => metas_of(s.remove(j)),
        }),
    decreases s.len(),
{
    broadcast use vstd::multiset::group_multiset_axioms;

    if j == s.len() - 1 {
        assert(s.remove(j) =~= s.drop_last());
    } else {
        assert(s.remove(j).drop_last() =~= s.drop_last().remove(j));
        assert(s.remove(j).last() == s.last());
        assert(s.drop_last()[j] == s[j]);
        lemma_metas_of_remove(s.drop_last(), j);
        match (node_meta(s[j]), node_meta(s.last())) {
            (Some(a), Some(b)) => {
                assert(metas_of(s.drop_last().remove(j)).insert(a).insert(b) =~= metas_of(
                    s.drop_last().remove(j),
                ).insert(b).insert(a));
            },
            _ => {},
        }
    }
}

/// Reordering siblings keeps the same direct metadata leaves.
pub proof fn lemma_metas_of_perm(x: Seq<TreeNode>, y: Seq<TreeNode>)
    requires
        x.to_multiset() == y.to_multiset(),
    ensures
        metas_of(x) == metas_of(y),
    decreases x.len(),
{
    broadcast use vstd::seq_lib::group_to_multiset_ensures;
    broadcast use vstd::multiset::group_multiset_axioms;

    if x.len() == 0 {
        assert(y.to_multiset().len() == 0);
        assert(y.len() == 0);
    } else {
        let e = x.last();
        assert(x.to_multiset().count(e) > 0) by {
            assert(x.contains(e));
        }
        assert(y.contains(e));
        let j = choose|j: int| 0 <= j < y.len() && y[j] == e;
        lemma_metas_of_remove(y, j);
        assert(x.drop_last() =~= x.remove(x.len() - 1));
        assert(x.drop_last().to_multiset() =~= y.remove(j).to_multiset()) by {
            assert(x.remove(x.len() - 1).to_multiset() =~= x.to_multiset().remove(x[x.len() - 1]));
            assert(y.remove(j).to_multiset() =~= y.to_multiset().remove(y[j]));
        }
        lemma_metas_of_perm(x.drop_last(), y.remove(j));
    }
}

/// Removing one node removes exactly its contribution to a name's group
/// count.
proof fn lemma_group_count_remove(s: Seq<TreeNode>, j: int, nm: Seq<char>)
    requires
        0 <= j < s.len(),
    ensures
        group_name_count(s, nm) == group_name_count(s.remove(j), nm) + (match s[j] {
            TreeNode::Group { name, .. } => if name@ == nm {
                1nat
            } else {
                0nat
            },
            _ => 0nat,
        }),
    decreases s.len(),
{
    if j == s.len() - 1 {
        assert(s.remove(j) =~= s.drop_last());
    } else {
        assert(s.remove(j).drop_last() =~= s.drop_last().remove(j));
        assert(s.remove(j).last() == s.last());
        assert(s.drop_last()[j] == s[j]);
        lemma_group_count_remove(s.drop_last(), j, nm);
    }
}

/// Reordering siblings keeps every name's group count.
pub proof fn lemma_group_count_perm(x: Seq<TreeNode>, y: Seq<TreeNode>, nm: Seq<char>)
    requires
        x.to_multiset() == y.to_multiset(),
    ensures
        group_name_count(x, nm) == group_name_count(y, nm),
    decreases x.len(),
{
    broadcast use vstd::seq_lib::group_to_multiset_ensures;
    broadcast use vstd::multiset::group_multiset_axioms;

    if x.len() == 0 {
        assert(y.to_multiset().len() == 0);
        assert(y.len() == 0);
    } else {
        let e = x.last();
        assert(x.to_multiset().count(e) > 0) by {
            assert(x.contains(e));
        }
        assert(y.contains(e));
        let j = choose|j: int| 0 <= j < y.len() && y[j] == e;
        lemma_group_count_remove(y, j, nm);
        assert(x.drop_last() =~= x.remove(x.len() - 1));
        assert(x.drop_last().to_multiset() =~= y.remove(j).to_multiset()) by {
            assert(x.remove(x.len() - 1).to_multiset() =~= x.to_multiset().remove(x[x.len() - 1]));
            assert(y.remove(j).to_multiset() =~= y.to_multiset().remove(y[j]));
        }
        lemma_group_count_perm(x.drop_last(), y.remove(j), nm);
    }
}

// ---------------------------------------------------------------------------
// Sorting and deduplication
// ---------------------------------------------------------------------------
/// Whether `a` sorts at or before `b` by node name.
pub fn node_le(a: &TreeNode, b: &TreeNode) -> (r: bool)
    ensures
        r == name_le(tree_name(*a), tree_name(*b)),
{
    name_le_exec(a.name(), b.name())
}

/// Whether `a` sorts at or before `b` by record name.
pub fn record_le(a: &TensorInfo, b: &TensorInfo) -> (r: bool)
    ensures
        r == name_le(a@.name, b@.name),
{
    name_le_exec(a.name.as_str(), b.name.as_str())
}

/// Sorts sibling nodes into natural name order, keeping exactly the given
/// nodes.
#[verifier::loop_isolation(false)]
pub fn sort_nodes(input: Vec<TreeNode>) -> (r: Vec<TreeNode>)
    ensures
        r@.to_multiset() == input@.to_multiset(),
        r@.len() == input@.len(),
        forall|x: TreeNode| r@.contains(x) <==> input@.contains(x),
        forall|i: int, j: int|
            0 <= i < j < r@.len() ==> name_le(
                tree_name(#[trigger] r@[i]),
                tree_name(#[trigger] r@[j]),
            ),
{
    broadcast use vstd::seq_lib::group_to_multiset_ensures;

    let mut rest = input;
    let mut out: Vec<TreeNode> = Vec::new();
    proof {
        assert(out@.to_multiset().add(rest@.to_multiset()) =~= input@.to_multiset());
    }
    while rest.len() > 0
        invariant
            out@.to_multiset().add(rest@.to_multiset()) == input@.to_multiset(),
            out@.len() + rest@.len() == input@.len(),
            forall|i: int, j: int|
                0 <= i < j < out@.len() ==> name_le(
                    tree_name(#[trigger] out@[i]),
                    tree_name(#[trigger] out@[j]),
                ),
            forall|i: int, k: int|
                0 <= i < out@.len() && 0 <= k < rest@.len() ==> name_le(
                    tree_name(#[trigger] out@[i]),
                    tree_name(#[trigger] rest@[k]),
                ),
        decreases rest@.len(),
    {
        let mut m: usize = 0;
        let mut k: usize = 1;
        proof {
            lemma_name_le_total(tree_name(rest@[0]), tree_name(rest@[0]));
        }
        while k < rest.len()
            invariant
                m < k <= rest@.len(),
                forall|t: int|
                    0 <= t < k ==> name_le(
                        tree_name(rest@[m as int]),
                        tree_name(#[trigger] rest@[t]),
                    ),
            decreases rest@.len() - k,
        {
            if !node_le(&rest[m], &rest[k]) {
                proof {
                    lemma_name_le_total(tree_name(rest@[m as int]), tree_name(rest@[k as int]));
                    assert forall|t: int|
                        0 <= t < k + 1 implies name_le(
                        tree_name(rest@[k as int]),
                        tree_name(#[trigger] rest@[t]),
                    ) by {
                        if t < k {
                            lemma_name_le_trans(
                                tree_name(rest@[k as int]),
                                tree_name(rest@[m as int]),
                                tree_name(rest@[t]),
                            );
                        } else {
                            lemma_name_le_total(
                                tree_name(rest@[k as int]),
                                tree_name(rest@[k as int]),
                            );
                        }
                    }
                }
                m = k;
            }
            k = k + 1;
        }
        let ghost old_rest = rest@;
        let ghost old_out = out@;
        let x = rest.remove(m);
        proof {
            assert(rest@ == old_rest.remove(m as int));
            assert(rest@.to_multiset() =~= old_rest.to_multiset().remove(x));
            assert forall|t: int|
                0 <= t < rest@.len() implies name_le(
                tree_name(x),
                tree_name(#[trigger] rest@[t]),
            ) by {
                if t < m {
                    assert(rest@[t] == old_rest[t]);
                } else {
                    assert(rest@[t] == old_rest[t + 1]);
                }
            }
        }
        out.push(x);
        proof {
            assert(out@ == old_out.push(x));
            assert(out@.to_multiset() =~= old_out.to_multiset().insert(x));
            assert(out@.to_multiset().add(rest@.to_multiset()) =~= input@.to_multiset()) by {
                assert(old_rest.to_multiset().contains(x)) by {
                    assert(old_rest.contains(x)) by {
                        assert(old_rest[m as int] == x);
                    }
                }
                assert forall|e: TreeNode|
                    out@.to_multiset().add(rest@.to_multiset()).count(e)
                        == input@.to_multiset().count(e) by {
                    assert(old_out.to_multiset().add(old_rest.to_multiset()).count(e)
                        == input@.to_multiset().count(e));
                }
            }
            assert forall|i: int, j: int|
                0 <= i < j < out@.len() implies name_le(
                tree_name(#[trigger] out@[i]),
                tree_name(#[trigger] out@[j]),
            ) by {
                if j == out@.len() - 1 {
                    assert(name_le(tree_name(old_out[i]), tree_name(old_rest[m as int])));
                }
            }
            assert forall|i: int, k2: int|
                0 <= i < out@.len() && 0 <= k2 < rest@.len() implies name_le(
                tree_name(#[trigger] out@[i]),
                tree_name(#[trigger] rest@[k2]),
            ) by {
                if i < out@.len() - 1 {
                    if k2 < m {
                        assert(rest@[k2] == old_rest[k2]);
                        assert(name_le(tree_name(old_out[i]), tree_name(old_rest[k2])));
                    } else {
                        assert(rest@[k2] == old_rest[k2 + 1]);
                        assert(name_le(tree_name(old_out[i]), tree_name(old_rest[k2 + 1])));
                    }
                } else {
                    assert(out@[i] == x);
                }
            }
        }
    }
    proof {
        assert(rest@.to_multiset().len() == 0);
        assert(out@.to_multiset() =~= out@.to_multiset().add(rest@.to_multiset())) by {
            assert forall|e: TreeNode|
                out@.to_multiset().count(e) == out@.to_multiset().add(rest@.to_multiset()).count(
                    e,
                ) by {
                assert(rest@.to_multiset().count(e) == 0) by {
                    if rest@.to_multiset().count(e) > 0 {
                        assert(rest@.contains(e));
                    }
                }
            }
        }
        assert forall|x: TreeNode| out@.contains(x) <==> input@.contains(x) by {
            assert(out@.contains(x) <==> out@.to_multiset().count(x) > 0);
            assert(input@.contains(x) <==> input@.to_multiset().count(x) > 0);
        }
    }
    out
}

/// Sorts records into natural name order, keeping exactly the given records.
#[verifier::loop_isolation(false)]
pub fn sort_records(input: Vec<TensorInfo>) -> (r: Vec<TensorInfo>)
    ensures
        r@.to_multiset() == input@.to_multiset(),
        r@.len() == input@.len(),
        forall|x: TensorInfo| r@.contains(x) <==> input@.contains(x),
        forall|i: int, j: int|
            0 <= i < j < r@.len() ==> name_le((#[trigger] r@[i])@.name, (#[trigger] r@[j])@.name),
{
    broadcast use vstd::seq_lib::group_to_multiset_ensures;

    let mut rest = input;
    let mut out: Vec<TensorInfo> = Vec::new();
    proof {
        assert(out@.to_multiset().add(rest@.to_multiset()) =~= input@.to_multiset());
    }
    while rest.len() > 0
        invariant
            out@.to_multiset().add(rest@.to_multiset()) == input@.to_multiset(),
            out@.len() + rest@.len() == input@.len(),
            forall|i: int, j: int|
                0 <= i < j < out@.len() ==> name_le(
                    (#[trigger] out@[i])@.name,
                    (#[trigger] out@[j])@.name,
                ),
            forall|i: int, k: int|
                0 <= i < out@.len() && 0 <= k < rest@.len() ==> name_le(
                    (#[trigger] out@[i])@.name,
                    (#[trigger] rest@[k])@.name,
                ),
        decreases rest@.len(),
    {
        let mut m: usize = 0;
        let mut k: usize = 1;
        proof {
            lemma_name_le_total(rest@[0]@.name, rest@[0]@.name);
        }
        while k < rest.len()
            invariant
                m < k <= rest@.len(),
                forall|t: int|
                    0 <= t < k ==> name_le(rest@[m as int]@.name, (#[trigger] rest@[t])@.name),
            decreases rest@.len() - k,
        {
            if !record_le(&rest[m], &rest[k]) {
                proof {
                    lemma_name_le_total(rest@[m as int]@.name, rest@[k as int]@.name);
                    assert forall|t: int|
                        0 <= t < k + 1 implies name_le(
                        rest@[k as int]@.name,
                        (#[trigger] rest@[t])@.name,
                    ) by {
                        if t < k {
                            lemma_name_le_trans(
                                rest@[k as int]@.name,
                                rest@[m as int]@.name,
                                rest@[t]@.name,
                            );
                        } else {
                            lemma_name_le_total(rest@[k as int]@.name, rest@[k as int]@.name);
                        }
                    }
                }
                m = k;
            }
            k = k + 1;
        }
        let ghost old_rest = rest@;
        let ghost old_out = out@;
        let x = rest.remove(m);
        proof {
            assert(rest@ == old_rest.remove(m as int));
            assert(rest@.to_multiset() =~= old_rest.to_multiset().remove(x));
            assert forall|t: int|
                0 <= t < rest@.len() implies name_le(x@.name, (#[trigger] rest@[t])@.name) by {
                if t < m {
                    assert(rest@[t] == old_rest[t]);
                } else {
                    assert(rest@[t] == old_rest[t + 1]);
                }
            }
        }
        out.push(x);
        proof {
            assert(out@ == old_out.push(x));
            assert(out@.to_multiset() =~= old_out.to_multiset().insert(x));
            assert(out@.to_multiset().add(rest@.to_multiset()) =~= input@.to_multiset()) by {
                assert(old_rest.to_multiset().contains(x)) by {
                    assert(old_rest.contains(x)) by {
                        assert(old_rest[m as int] == x);
                    }
                }
                assert forall|e: TensorInfo|
                    out@.to_multiset().add(rest@.to_multiset()).count(e)
                        == input@.to_multiset().count(e) by {
                    assert(old_out.to_multiset().add(old_rest.to_multiset()).count(e)
                        == input@.to_multiset().count(e));
                }
            }
            assert forall|i: int, j: int|
                0 <= i < j < out@.len() implies name_le(
                (#[trigger] out@[i])@.name,
                (#[trigger] out@[j])@.name,
            ) by {
                if j == out@.len() - 1 {
                    assert(name_le(old_out[i]@.name, old_rest[m as int]@.name));
                }
            }
            assert forall|i: int, k2: int|
                0 <= i < out@.len() && 0 <= k2 < rest@.len() implies name_le(
                (#[trigger] out@[i])@.name,
                (#[trigger] rest@[k2])@.name,
            ) by {
                if i < out@.len() - 1 {
                    if k2 < m {
                        assert(rest@[k2] == old_rest[k2]);
                        assert(name_le(old_out[i]@.name, old_rest[k2]@.name));
                    } else {
                        assert(rest@[k2] == old_rest[k2 + 1]);
                        assert(name_le(old_out[i]@.name, old_rest[k2 + 1]@.name));
                    }
                } else {
                    assert(out@[i] == x);
                }
            }
        }
    }
    proof {
        assert(rest@.to_multiset().len() == 0);
        assert(out@.to_multiset() =~= out@.to_multiset().add(rest@.to_multiset())) by {
            assert forall|e: TensorInfo|
                out@.to_multiset().count(e) == out@.to_multiset().add(rest@.to_multiset()).count(
                    e,
                ) by {
                assert(rest@.to_multiset().count(e) == 0) by {
                    if rest@.to_multiset().count(e) > 0 {
                        assert(rest@.contains(e));
                    }
                }
            }
        }
        assert forall|x: TensorInfo| out@.contains(x) <==> input@.contains(x) by {
            assert(out@.contains(x) <==> out@.to_multiset().count(x) > 0);
            assert(input@.contains(x) <==> input@.to_multiset().count(x) > 0);
        }
    }
    out
}

// ---------------------------------------------------------------------------
// Building
// ---------------------------------------------------------------------------
/// One record paired with the path segments of its name not yet consumed by
/// the levels above.
struct PathedRecord {
    info: TensorInfo,
    rest: Vec<String>,
}

/// The record belongs under `prefix`: its split name is the prefix followed
/// by its remaining segments, of which there is at least one.
spec fn pathed_ok(r: PathedRecord, prefix: Seq<Seq<char>>) -> bool {
    &&& spec_split(r.info.name@) == prefix + string_views(r.rest@)
    &&& r.rest@.len() >= 1
}

/// Whether any record of the run carries this tensor.
spec fn recs_have(s: Seq<PathedRecord>, info: TensorInfoV) -> bool {
    exists|i: int| 0 <= i < s.len() && (#[trigger] s[i]).info@ == info
}

/// Whether any of the strings reads as this name.
spec fn name_in(s: Seq<String>, nm: Seq<char>) -> bool {
    exists|u: int| 0 <= u < s.len() && (#[trigger] s[u])@ == nm
}

/// The records of a pathed run, as a multiset of their shapes.
spec fn pathed_ms(s: Seq<PathedRecord>) -> Multiset<TensorInfoV>
    decreases s.len(),
{
    if s.len() == 0 {
        Multiset::empty()
    } else {
        pathed_ms(s.drop_last()).insert(s.last().info@)
    }
}

/// The records of all buckets together, as a multiset of their shapes.
spec fn buckets_ms(bs: Seq<Vec<PathedRecord>>) -> Multiset<TensorInfoV>
    decreases bs.len(),
{
    if bs.len() == 0 {
        Multiset::empty()
    } else {
        buckets_ms(bs.drop_last()).add(pathed_ms(bs.last()@))
    }
}

/// A pathed run unfolds at the front as well as at the back.
proof fn lemma_pathed_ms_cons(s: Seq<PathedRecord>)
    requires
        s.len() > 0,
    ensures
        pathed_ms(s) == pathed_ms(s.drop_first()).insert(s[0].info@),
    decreases s.len(),
{
    broadcast use vstd::multiset::group_multiset_axioms;

    if s.len() == 1 {
        assert(s.drop_first() =~= Seq::<PathedRecord>::empty());
        assert(s.drop_last() =~= Seq::<PathedRecord>::empty());
    } else {
        assert(s.drop_last().len() > 0);
        assert(s.drop_last()[0] == s[0]);
        lemma_pathed_ms_cons(s.drop_last());
        assert(s.drop_last().drop_first() =~= s.drop_first().drop_last());
        assert(s.drop_first().last() == s.last());
        assert(pathed_ms(s.drop_first().drop_last()).insert(s[0].info@).insert(s.last().info@)
            =~= pathed_ms(s.drop_first().drop_last()).insert(s.last().info@).insert(s[0].info@));
    }
}

/// A pathed run extended by one record gains exactly that record.
proof fn lemma_pathed_ms_snoc(s: Seq<PathedRecord>, x: PathedRecord)
    ensures
        pathed_ms(s.push(x)) == pathed_ms(s).insert(x.info@),
{
    assert(s.push(x).drop_last() =~= s);
    assert(s.push(x).last() == x);
}

/// A record counts in a pathed run's multiset exactly when it stands at
/// some position.
proof fn lemma_pathed_ms_has(s: Seq<PathedRecord>, info: TensorInfoV)
    ensures
        pathed_ms(s).count(info) > 0 <==> recs_have(s, info),
    decreases s.len(),
{
    broadcast use vstd::multiset::group_multiset_axioms;

    if s.len() > 0 {
        lemma_pathed_ms_has(s.drop_last(), info);
        if pathed_ms(s).count(info) > 0 {
            if pathed_ms(s.drop_last()).count(info) > 0 {
                let i = choose|i: int|
                    0 <= i < s.drop_last().len() && (#[trigger] s.drop_last()[i]).info@ == info;
                assert(s[i].info@ == info);
            } else {
                assert(s[s.len() - 1].info@ == info);
            }
        }
        if recs_have(s, info) {
            let i = choose|i: int| 0 <= i < s.len() && (#[trigger] s[i]).info@ == info;
            if i < s.len() - 1 {
                assert(s.drop_last()[i] == s[i]);
            }
        }
    }
}

/// Removing one bucket removes exactly its records.
proof fn lemma_buckets_ms_remove(bs: Seq<Vec<PathedRecord>>, j: int)
    requires
        0 <= j < bs.len(),
    ensures
        buckets_ms(bs) == buckets_ms(bs.remove(j)).add(pathed_ms(bs[j]@)),
    decreases bs.len(),
{
    broadcast use vstd::multiset::group_multiset_axioms;

    if j == bs.len() - 1 {
        assert(bs.remove(j) =~= bs.drop_last());
    } else {
        assert(bs.remove(j).drop_last() =~= bs.drop_last().remove(j));
        assert(bs.remove(j).last() == bs.last());
        assert(bs.drop_last()[j] == bs[j]);
        lemma_buckets_ms_remove(bs.drop_last(), j);
        assert(buckets_ms(bs.drop_last().remove(j)).add(pathed_ms(bs[j]@)).add(
            pathed_ms(bs.last()@),
        ) =~= buckets_ms(bs.drop_last().remove(j)).add(pathed_ms(bs.last()@)).add(
            pathed_ms(bs[j]@),
        ));
    }
}

/// A run of leaves and no groups counts no group name.
proof fn lemma_group_count_no_groups(s: Seq<TreeNode>, nm: Seq<char>)
    requires
        forall|i: int| 0 <= i < s.len() ==> !((#[trigger] s[i]) matches TreeNode::Group { .. }),
    ensures
        group_name_count(s, nm) == 0,
    decreases s.len(),
{
    if s.len() > 0 {
        assert(!(s[s.len() - 1] matches TreeNode::Group { .. }));
        assert forall|i: int|
            0 <= i < s.drop_last().len() implies !((#[trigger] s.drop_last()[i]) matches TreeNode::Group { .. }) by {
            assert(s.drop_last()[i] == s[i]);
        }
        lemma_group_count_no_groups(s.drop_last(), nm);
    }
}

/// A subtree with a tensor leaf holds at least one tensor.
proof fn lemma_has_leaf_tc(n: TreeNode, info: TensorInfoV)
    requires
        node_has_leaf(n, info),
    ensures
        node_tc(n) >= 1,
    decreases n,
{
    match n {
        TreeNode::Group { children, .. } => {
            lemma_forest_has_leaf_tc(children@, info);
        },
        _ => {},
    }
}

proof fn lemma_forest_has_leaf_tc(s: Seq<TreeNode>, info: TensorInfoV)
    requires
        forest_has_leaf(s, info),
    ensures
        forest_tc(s) >= 1,
    decreases s,
{
    let i = choose|i: int| 0 <= i < s.len() && node_has_leaf(#[trigger] s[i], info);
    if i == s.len() - 1 {
        lemma_has_leaf_tc(s.last(), info);
    } else {
        assert(s.drop_last()[i] == s[i]);
        assert(forest_has_leaf(s.drop_last(), info));
        lemma_forest_has_leaf_tc(s.drop_last(), info);
    }
}

/// Saturating addition: the clamped sum.
fn sat_add(a: usize, b: usize) -> (r: usize)
    ensures
        r == clamp_usize(a as nat + b as nat),
{
    if a > usize::MAX - b {
        usize::MAX
    } else {
        a + b
    }
}

/// The cached aggregates a parent stores for these children: the count and
/// clamped total size of all tensor leaves anywhere beneath them.
#[verifier::loop_isolation(false)]
fn count_and_size(nodes: &Vec<TreeNode>) -> (r: (usize, usize))
    ensures
        r.0 == clamp_usize(forest_tc(nodes@)),
        r.1 == clamp_usize(forest_ts(nodes@)),
    decreases nodes,
{
    let mut cnt: usize = 0;
    let mut size: usize = 0;
    let mut i: usize = 0;
    proof {
        assert(nodes@.subrange(0, 0) =~= Seq::<TreeNode>::empty());
    }
    while i < nodes.len()
        invariant
            i <= nodes@.len(),
            cnt == clamp_usize(forest_tc(nodes@.subrange(0, i as int))),
            size == clamp_usize(forest_ts(nodes@.subrange(0, i as int))),
        decreases nodes@.len() - i,
    {
        proof {
            assert(decreases_to!(nodes => nodes@[i as int]));
        }
        let (nc, ns) = node_count_size(&nodes[i]);
        proof {
            assert(nodes@.subrange(0, i + 1).drop_last() =~= nodes@.subrange(0, i as int));
            assert(nodes@.subrange(0, i + 1).last() == nodes@[i as int]);
        }
        cnt = sat_add(cnt, nc);
        size = sat_add(size, ns);
        i = i + 1;
    }
    proof {
        assert(nodes@.subrange(0, nodes@.len() as int) =~= nodes@);
    }
    (cnt, size)
}

fn node_count_size(n: &TreeNode) -> (r: (usize, usize))
    ensures
        r.0 == clamp_usize(node_tc(*n)),
        r.1 == clamp_usize(node_ts(*n)),
    decreases n,
{
    match n {
        TreeNode::Group { children, .. } => count_and_size(children),
        TreeNode::Tensor { info } => (1, info.size_bytes),
        TreeNode::Metadata { .. } => (0, 0),
    }
}

/// The largest number of remaining segments any record carries.
spec fn max_rest(s: Seq<PathedRecord>) -> int
    decreases s.len(),
{
    if s.len() == 0 {
        0
    } else {
        let m = max_rest(s.drop_last());
        if s.last().rest@.len() > m {
            s.last().rest@.len() as int
        } else {
            m
        }
    }
}

proof fn lemma_max_rest(s: Seq<PathedRecord>)
    ensures
        max_rest(s) >= 0,
        forall|i: int| 0 <= i < s.len() ==> (#[trigger] s[i]).rest@.len() <= max_rest(s),
    decreases s.len(),
{
    if s.len() > 0 {
        lemma_max_rest(s.drop_last());
        assert forall|i: int|
            0 <= i < s.len() implies (#[trigger] s[i]).rest@.len() <= max_rest(s) by {
            if i < s.len() - 1 {
                assert(s.drop_last()[i] == s[i]);
            }
        }
    }
}

/// Builds one level of the tree: records with one remaining segment become
/// tensor leaves here; the rest are grouped by their next segment, each
/// group built recursively from its records. Siblings come out in natural
/// name order; groups built at this level are expanded exactly when `top`
/// holds, deeper groups are collapsed.
#[verifier::loop_isolation(false)]
#[verifier::rlimit(100)]
fn build_level(
    records: Vec<PathedRecord>,
    top: bool,
    Ghost(prefix): Ghost<Seq<Seq<char>>>,
    Ghost(bound): Ghost<int>,
) -> (r: Vec<TreeNode>)
    requires
        forall|i: int| 0 <= i < records@.len() ==> pathed_ok(#[trigger] records@[i], prefix),
        forall|i: int| 0 <= i < records@.len() ==> (#[trigger] records@[i]).rest@.len() <= bound,
        bound >= 0,
    ensures
        forest_sorted(r@),
        forest_agg_ok(r@),
        forest_paths_ok(r@, prefix),
        forest_exp_ok(r@, top),
        forest_groups_nonempty(r@),
        forall|info: TensorInfoV|
            #![trigger forest_has_leaf(r@, info)]
            forest_has_leaf(r@, info) <==> recs_have(records@, info),
        forest_leaves(r@) == pathed_ms(records@),
        forest_no_meta(r@),
        forest_group_names_unique(r@),
        records@.len() == 0 ==> r@.len() == 0,
    decreases bound,
{
    broadcast use vstd::multiset::group_multiset_axioms;

    let ghost input = records@;
    let mut rest = records;
    let mut nodes: Vec<TreeNode> = Vec::new();
    let mut bucket_names: Vec<String> = Vec::new();
    let mut buckets: Vec<Vec<PathedRecord>> = Vec::new();
    proof {
        assert(forest_leaves(nodes@).add(buckets_ms(buckets@)).add(pathed_ms(rest@))
            =~= pathed_ms(input));
    }
    while rest.len() > 0
        invariant
            bucket_names@.len() == buckets@.len(),
            pathed_ms(input) == forest_leaves(nodes@).add(buckets_ms(buckets@)).add(
                pathed_ms(rest@),
            ),
            forall|u: int, v: int|
                0 <= u < v < bucket_names@.len() ==> (#[trigger] bucket_names@[u])@ != (
                #[trigger] bucket_names@[v])@,
            input.len() == 0 ==> nodes@.len() == 0 && buckets@.len() == 0,
            rest@.len() <= input.len(),
            forall|i: int| 0 <= i < rest@.len() ==> pathed_ok(#[trigger] rest@[i], prefix),
            forall|i: int| 0 <= i < rest@.len() ==> (#[trigger] rest@[i]).rest@.len() <= bound,
            forall|i: int| 0 <= i < nodes@.len() ==> (#[trigger] nodes@[i]) matches TreeNode::Tensor { .. },
            forall|i: int| 0 <= i < nodes@.len() ==> node_paths_ok(#[trigger] nodes@[i], prefix),
            forall|b: int, i: int|
                0 <= b < buckets@.len() && 0 <= i < buckets@[b]@.len() ==> pathed_ok(
                    #[trigger] buckets@[b]@[i],
                    prefix.push(bucket_names@[b]@),
                ),
            forall|b: int, i: int|
                0 <= b < buckets@.len() && 0 <= i < buckets@[b]@.len()
                    ==> (#[trigger] buckets@[b]@[i]).rest@.len() <= bound - 1,
            forall|b: int| 0 <= b < buckets@.len() ==> (#[trigger] buckets@[b])@.len() >= 1,
        decreases rest@.len(),
    {
        let ghost old_rest = rest@;
        let mut x = rest.remove(0);
        proof {
            assert(rest@ =~= old_rest.drop_first());
            assert(x == old_rest[0]);
            assert(pathed_ok(old_rest[0], prefix));
            lemma_pathed_ms_cons(old_rest);
            assert forall|i: int|
                0 <= i < rest@.len() implies pathed_ok(#[trigger] rest@[i], prefix) && (
            rest@[i]).rest@.len() <= bound by {
                assert(rest@[i] == old_rest[i + 1]);
            }
        }
        if x.rest.len() == 1 {
            let ghost old_nodes = nodes@;
            nodes.push(TreeNode::Tensor { info: x.info });
            proof {
                let leaf = nodes@.last();
                assert(spec_split(leaf->Tensor_info.name@) == prefix + string_views(
                    old_rest[0].rest@,
                ));
                assert(string_views(old_rest[0].rest@).len() == 1);
                assert(spec_split(leaf->Tensor_info.name@).take(prefix.len() as int) =~= prefix);
                assert(node_paths_ok(leaf, prefix));
                assert(nodes@.drop_last() =~= old_nodes);
                assert(node_leaves(nodes@.last()) =~= Multiset::singleton(old_rest[0].info@));
                assert(forest_leaves(nodes@) =~= forest_leaves(old_nodes).insert(
                    old_rest[0].info@,
                ));
                assert(forest_leaves(nodes@).add(buckets_ms(buckets@)).add(pathed_ms(rest@))
                    =~= pathed_ms(input));
            }
        } else {
            let ghost old_x = x;
            let seg = x.rest.remove(0);
            proof {
                assert(x.rest@ =~= old_x.rest@.drop_first());
                assert(seg@ == old_x.rest@[0]@);
                assert(string_views(old_x.rest@) =~= seq![seg@] + string_views(x.rest@));
                assert(prefix + string_views(old_x.rest@) =~= prefix.push(seg@) + string_views(
                    x.rest@,
                ));
                assert(pathed_ok(x, prefix.push(seg@)));
            }
            let ghost segv = seg@;
            let mut bi: usize = buckets.len();
            let mut t: usize = 0;
            while t < bucket_names.len()
                invariant
                    t <= bucket_names@.len(),
                    bucket_names@.len() == buckets@.len(),
                    bi == buckets@.len() || (bi < buckets@.len() && bucket_names@[bi as int]@
                        == seg@),
                    bi == buckets@.len() ==> forall|u: int|
                        0 <= u < t ==> (#[trigger] bucket_names@[u])@ != seg@,
                decreases bucket_names@.len() - t,
            {
                if bucket_names[t].eq(&seg) {
                    bi = t;
                    break ;
                }
                t = t + 1;
            }
            let ghost old_buckets = buckets@;
            let ghost old_bucket_names = bucket_names@;
            let ghost fresh_bucket = bi == buckets@.len();
            if bi == buckets.len() {
                bucket_names.push(seg);
                buckets.push(Vec::new());
            }
            let ghost mid_buckets = buckets@;
            let ghost x_after = x;
            let b = vstd::std_specs::vec::vec_index_mut(&mut buckets, bi);
            b.push(x);
            proof {
                assert(buckets@[bi as int]@.last() == old_rest[0] || buckets@[bi as
                    int]@.last().info@ == old_rest[0].info@);
                assert forall|b2: int, i: int|
                    0 <= b2 < buckets@.len() && 0 <= i < buckets@[b2]@.len() implies pathed_ok(
                    #[trigger] buckets@[b2]@[i],
                    prefix.push(bucket_names@[b2]@),
                ) && (buckets@[b2]@[i]).rest@.len() <= bound - 1 by {
                    if b2 != bi {
                        assert(buckets@[b2] == old_buckets[b2]);
                    } else {
                        if i < buckets@[bi as int]@.len() - 1 {
                            if bi < old_buckets.len() {
                                assert(old_buckets[b2]@[i] == buckets@[b2]@[i]);
                            }
                        } else {
                            assert(buckets@[b2]@[i] == x);
                        }
                    }
                }
                assert(x_after.info@ == old_rest[0].info@);
                assert(buckets@[bi as int]@ =~= mid_buckets[bi as int]@.push(x_after));
                lemma_pathed_ms_snoc(mid_buckets[bi as int]@, x_after);
                lemma_buckets_ms_remove(buckets@, bi as int);
                assert(buckets@.remove(bi as int) =~= mid_buckets.remove(bi as int));
                if fresh_bucket {
                    assert(mid_buckets.remove(bi as int) =~= old_buckets);
                    assert(mid_buckets[bi as int]@ =~= Seq::<PathedRecord>::empty());
                    assert(buckets_ms(buckets@) =~= buckets_ms(old_buckets).insert(
                        old_rest[0].info@,
                    ));
                } else {
                    lemma_buckets_ms_remove(mid_buckets, bi as int);
                    assert(mid_buckets == old_buckets);
                    assert(buckets_ms(buckets@) =~= buckets_ms(old_buckets).insert(
                        old_rest[0].info@,
                    ));
                }
                assert(forest_leaves(nodes@).add(buckets_ms(buckets@)).add(pathed_ms(rest@))
                    =~= pathed_ms(input));
                assert forall|u: int, v: int|
                    0 <= u < v < bucket_names@.len() implies (#[trigger] bucket_names@[u])@ != (
                #[trigger] bucket_names@[v])@ by {
                    if v < old_bucket_names.len() {
                        assert(bucket_names@[u] == old_bucket_names[u]);
                        assert(bucket_names@[v] == old_bucket_names[v]);
                    } else {
                        assert(bucket_names@[u] == old_bucket_names[u]);
                        assert(bucket_names@[v]@ == segv);
                    }
                }
            }
        }
    }
    proof {
        assert forall|nm: Seq<char>| #[trigger] group_name_count(nodes@, nm) == 0 by {
            lemma_group_count_no_groups(nodes@, nm);
        }
        assert(pathed_ms(rest@) =~= Multiset::<TensorInfoV>::empty());
        assert(pathed_ms(input) =~= forest_leaves(nodes@).add(buckets_ms(buckets@)));
    }
    while buckets.len() > 0
        invariant
            bucket_names@.len() == buckets@.len(),
            pathed_ms(input) == forest_leaves(nodes@).add(buckets_ms(buckets@)),
            forall|u: int, v: int|
                0 <= u < v < bucket_names@.len() ==> (#[trigger] bucket_names@[u])@ != (
                #[trigger] bucket_names@[v])@,
            input.len() == 0 ==> nodes@.len() == 0 && buckets@.len() == 0,
            forall|i: int| 0 <= i < nodes@.len() ==> node_no_meta(#[trigger] nodes@[i]),
            forall|i: int|
                0 <= i < nodes@.len() ==> node_group_names_unique(#[trigger] nodes@[i]),
            forall|nm: Seq<char>| #[trigger] group_name_count(nodes@, nm) <= 1,
            forall|nm: Seq<char>|
                #[trigger] group_name_count(nodes@, nm) == 1 ==> !name_in(bucket_names@, nm),
            forall|i: int| 0 <= i < nodes@.len() ==> node_paths_ok(#[trigger] nodes@[i], prefix),
            forall|i: int| 0 <= i < nodes@.len() ==> node_agg_ok(#[trigger] nodes@[i]),
            forall|i: int| 0 <= i < nodes@.len() ==> node_sorted(#[trigger] nodes@[i]),
            forall|i: int| 0 <= i < nodes@.len() ==> node_exp_ok(#[trigger] nodes@[i], top),
            forall|i: int| 0 <= i < nodes@.len() ==> node_groups_nonempty(#[trigger] nodes@[i]),
            forall|b: int, i: int|
                0 <= b < buckets@.len() && 0 <= i < buckets@[b]@.len() ==> pathed_ok(
                    #[trigger] buckets@[b]@[i],
                    prefix.push(bucket_names@[b]@),
                ),
            forall|b: int, i: int|
                0 <= b < buckets@.len() && 0 <= i < buckets@[b]@.len()
                    ==> (#[trigger] buckets@[b]@[i]).rest@.len() <= bound - 1,
            forall|b: int| 0 <= b < buckets@.len() ==> (#[trigger] buckets@[b])@.len() >= 1,
        decreases buckets@.len(),
    {
        let ghost old_buckets = buckets@;
        let ghost old_nodes = nodes@;
        let ghost old_bnames = bucket_names@;
        let bucket = buckets.remove(0);
        let bname = bucket_names.remove(0);
        proof {
            assert(buckets@ =~= old_buckets.drop_first());
            assert(bucket_names@ =~= old_bnames.drop_first());
            assert(bname@ == old_bnames[0]@);
            lemma_max_rest(bucket@);
        }
        let children = build_level(
            bucket,
            false,
            Ghost(prefix.push(bname@)),
            Ghost(bound - 1),
        );
        let (tc, ts) = count_and_size(&children);
        nodes.push(
            TreeNode::Group {
                name: bname,
                children,
                expanded: top,
                tensor_count: tc,
                total_size: ts,
            },
        );
        proof {
            let g = nodes@.last();
            assert(node_agg_ok(g));
            assert(node_paths_ok(g, prefix));
            assert(node_sorted(g));
            assert(node_exp_ok(g, top));
            assert(node_groups_nonempty(g)) by {
                assert(old_buckets[0]@.len() >= 1);
                assert(recs_have(old_buckets[0]@, old_buckets[0]@[0].info@)) by {
                    assert((old_buckets[0]@[0]).info@ == old_buckets[0]@[0].info@);
                }
                assert(forest_has_leaf(g->Group_children@, old_buckets[0]@[0].info@));
                lemma_forest_has_leaf_tc(g->Group_children@, old_buckets[0]@[0].info@);
            }
            assert(nodes@.drop_last() =~= old_nodes);
            assert(node_leaves(g) == pathed_ms(old_buckets[0]@));
            lemma_buckets_ms_remove(old_buckets, 0);
            assert(old_buckets.remove(0) =~= old_buckets.drop_first());
            assert(forest_leaves(nodes@).add(buckets_ms(buckets@)) =~= pathed_ms(input));
            assert(node_no_meta(g));
            assert(node_group_names_unique(g));
            assert forall|nm: Seq<char>| #[trigger] group_name_count(nodes@, nm) <= 1 && (
            group_name_count(nodes@, nm) == 1 ==> !name_in(bucket_names@, nm)) by {
                assert(group_name_count(nodes@, nm) == group_name_count(old_nodes, nm) + (
                if old_bnames[0]@ == nm {
                    1nat
                } else {
                    0nat
                }));
                if old_bnames[0]@ == nm {
                    if group_name_count(old_nodes, nm) == 1 {
                        assert(name_in(old_bnames, nm)) by {
                            assert((old_bnames[0])@ == nm);
                        }
                        assert(false);
                    }
                    assert(!name_in(bucket_names@, nm)) by {
                        if name_in(bucket_names@, nm) {
                            let u = choose|u: int|
                                0 <= u < bucket_names@.len() && (#[trigger] bucket_names@[u])@
                                    == nm;
                            assert(old_bnames[u + 1]@ == nm);
                            assert(old_bnames[0]@ != old_bnames[u + 1]@);
                        }
                    }
                } else {
                    if group_name_count(nodes@, nm) == 1 {
                        assert(!name_in(old_bnames, nm));
                        assert(!name_in(bucket_names@, nm)) by {
                            if name_in(bucket_names@, nm) {
                                let u = choose|u: int|
                                    0 <= u < bucket_names@.len() && (#[trigger] bucket_names@[u])@
                                        == nm;
                                assert(old_bnames[u + 1]@ == nm);
                            }
                        }
                    }
                }
            }
        }
    }
    let ghost pre_nodes = nodes@;
    let ghost pre_buckets = buckets@;
    let sorted = sort_nodes(nodes);
    proof {
        let pre = sorted@;
        assert forall|i: int|
            0 <= i < pre.len() implies node_agg_ok(#[trigger] pre[i]) && node_sorted(pre[i])
            && node_paths_ok(pre[i], prefix) && node_exp_ok(pre[i], top) && node_groups_nonempty(
            pre[i],
        ) && node_no_meta(pre[i]) && node_group_names_unique(pre[i]) by {
            assert(pre.contains(pre[i]));
        }
        lemma_forest_leaves_perm(pre_nodes, sorted@);
        assert(buckets_ms(pre_buckets) =~= Multiset::<TensorInfoV>::empty());
        assert(forest_leaves(sorted@) =~= pathed_ms(input));
        assert forall|nm: Seq<char>| #[trigger] group_name_count(sorted@, nm) <= 1 by {
            lemma_group_count_perm(pre_nodes, sorted@, nm);
        }
        assert forall|info: TensorInfoV|
            #![trigger forest_has_leaf(sorted@, info)]
            forest_has_leaf(sorted@, info) <==> recs_have(input, info) by {
            lemma_forest_leaves_has(sorted@, info);
            lemma_pathed_ms_has(input, info);
        }
    }
    sorted
}

/// Whether any of these metadata records is this one.
pub open spec fn node_meta(n: TreeNode) -> Option<MetadataInfoV> {
    match n {
        TreeNode::Metadata { info } => Some(info@),
        _ => None,
    }
}

pub open spec fn has_meta(s: Seq<TreeNode>, mi: MetadataInfoV) -> bool {
    exists|i: int| 0 <= i < s.len() && node_meta(#[trigger] s[i]) == Some(mi)
}

/// A forest of metadata leaves holds no tensors.
proof fn lemma_meta_forest_zero(s: Seq<TreeNode>)
    requires
        forall|i: int| 0 <= i < s.len() ==> (#[trigger] s[i]) matches TreeNode::Metadata { .. },
    ensures
        forest_tc(s) == 0,
        forest_ts(s) == 0,
        forest_leaves(s) == Multiset::<TensorInfoV>::empty(),
    decreases s.len(),
{
    broadcast use vstd::multiset::group_multiset_axioms;

    if s.len() > 0 {
        assert(s[s.len() - 1] matches TreeNode::Metadata { .. });
        assert forall|i: int|
            0 <= i < s.drop_last().len() implies (#[trigger] s.drop_last()[i]) matches TreeNode::Metadata { .. } by {
            assert(s.drop_last()[i] == s[i]);
        }
        lemma_meta_forest_zero(s.drop_last());
        assert(node_tc(s.last()) == 0);
        assert(node_ts(s.last()) == 0);
        assert(forest_tc(s) == forest_tc(s.drop_last()) + node_tc(s.last()));
        assert(forest_ts(s) == forest_ts(s.drop_last()) + node_ts(s.last()));
        assert(node_leaves(s.last()) == Multiset::<TensorInfoV>::empty());
        assert(forest_leaves(s) =~= Multiset::<TensorInfoV>::empty());
    }
}

/// Pathed records carry exactly the records they were made from.
proof fn lemma_pathed_record_ms(p: Seq<PathedRecord>, t: Seq<TensorInfo>)
    requires
        p.len() == t.len(),
        forall|j: int| 0 <= j < p.len() ==> (#[trigger] p[j]).info@ == t[j]@,
    ensures
        pathed_ms(p) == record_views_ms(t),
    decreases p.len(),
{
    if p.len() > 0 {
        assert forall|j: int|
            0 <= j < p.drop_last().len() implies (#[trigger] p.drop_last()[j]).info@
            == t.drop_last()[j]@ by {
            assert(p.drop_last()[j] == p[j]);
            assert(t.drop_last()[j] == t[j]);
        }
        lemma_pathed_record_ms(p.drop_last(), t.drop_last());
        assert(p.last().info@ == t.last()@);
    }
}

/// Metadata leaves built one per entry carry exactly those entries.
proof fn lemma_meta_leaves_ms(kids: Seq<TreeNode>, metadata: Seq<MetadataInfo>)
    requires
        kids.len() == metadata.len(),
        forall|k: int| 0 <= k < kids.len() ==> node_meta(#[trigger] kids[k]) == Some(metadata[k]@),
    ensures
        metas_of(kids) == meta_views_ms(metadata),
    decreases kids.len(),
{
    if kids.len() > 0 {
        assert forall|k: int|
            0 <= k < kids.drop_last().len() implies node_meta(#[trigger] kids.drop_last()[k])
            == Some(metadata.drop_last()[k]@) by {
            assert(kids.drop_last()[k] == kids[k]);
            assert(metadata.drop_last()[k] == metadata[k]);
        }
        lemma_meta_leaves_ms(kids.drop_last(), metadata.drop_last());
        assert(node_meta(kids.last()) == Some(metadata.last()@));
    }
}

/// The tree builder: grouping, aggregation, ordering, flattening, and
/// expansion toggling over the namespace forest.
pub struct TreeBuilder;

impl TreeBuilder {
    /// Builds the forest for a record set: records with a single-segment
    /// name become root leaves, the rest are grouped by leading segments.
    /// Ensures the invariants the tree lives by: every group's cached
    /// aggregates equal the sum over all tensor leaves anywhere beneath it;
    /// siblings stand in natural name order at every level; every leaf sits
    /// where its dotted name says; top-level groups start expanded, nested
    /// ones collapsed; and the tree holds exactly the given records as
    /// leaves.
    #[verifier::loop_isolation(false)]
    pub fn build_tree(tensors: &Vec<TensorInfo>) -> (r: Vec<TreeNode>)
        ensures
            forest_sorted(r@),
            forest_agg_ok(r@),
            forest_paths_ok(r@, Seq::empty()),
            forest_exp_ok(r@, true),
            forest_groups_nonempty(r@),
            forall|info: TensorInfoV|
                #![trigger forest_has_leaf(r@, info)]
                forest_has_leaf(r@, info) <==> exists|i: int|
                    0 <= i < tensors@.len() && (#[trigger] tensors@[i])@ == info,
            forest_leaves(r@) == record_views_ms(tensors@),
            forest_no_meta(r@),
            forest_group_names_unique(r@),
            tensors@.len() == 0 ==> r@.len() == 0,
    {
        let mut pathed: Vec<PathedRecord> = Vec::new();
        let mut i: usize = 0;
        while i < tensors.len()
            invariant
                i <= tensors@.len(),
                pathed@.len() == i,
                forall|j: int|
                    0 <= j < pathed@.len() ==> pathed_ok(#[trigger] pathed@[j], Seq::empty()),
                forall|j: int|
                    0 <= j < pathed@.len() ==> (#[trigger] pathed@[j]).info@ == tensors@[j]@,
            decreases tensors@.len() - i,
        {
            let info = clone_tensor_info(&tensors[i]);
            let rest = split_dots(info.name.as_str());
            proof {
                assert(Seq::<Seq<char>>::empty() + string_views(rest@) =~= string_views(rest@));
            }
            pathed.push(PathedRecord { info, rest });
            i = i + 1;
        }
        let ghost pathed_view = pathed@;
        proof {
            lemma_max_rest(pathed_view);
        }
        let r = build_level(pathed, true, Ghost(Seq::empty()), Ghost(max_rest(pathed_view)));
        proof {
            lemma_pathed_record_ms(pathed_view, tensors@);
            assert forall|info: TensorInfoV|
                #![trigger forest_has_leaf(r@, info)]
                forest_has_leaf(r@, info) <==> exists|i: int|
                    0 <= i < tensors@.len() && (#[trigger] tensors@[i])@ == info by {
                if forest_has_leaf(r@, info) {
                    assert(recs_have(pathed_view, info));
                    let j = choose|j: int|
                        0 <= j < pathed_view.len() && (#[trigger] pathed_view[j]).info@ == info;
                    assert(tensors@[j]@ == info);
                }
                if exists|i: int| 0 <= i < tensors@.len() && (#[trigger] tensors@[i])@ == info {
                    let j = choose|j: int|
                        0 <= j < tensors@.len() && (#[trigger] tensors@[j])@ == info;
                    assert(pathed_view[j].info@ == info);
                    assert(recs_have(pathed_view, info));
                }
            }
        }
        r
    }

    /// Builds the forest with metadata entries present: one synthetic
    /// top-level group, always collapsed by default and contributing zero
    /// to tensor aggregates, holds the metadata leaves in natural name
    /// order; the tensor forest follows it.
    #[verifier::loop_isolation(false)]
    pub fn build_tree_mixed(tensors: &Vec<TensorInfo>, metadata: &Vec<MetadataInfo>) -> (r: Vec<
        TreeNode,
    >)
        ensures
            forest_agg_ok(r@),
            forall|info: TensorInfoV|
                #![trigger forest_has_leaf(r@, info)]
                forest_has_leaf(r@, info) <==> exists|i: int|
                    0 <= i < tensors@.len() && (#[trigger] tensors@[i])@ == info,
            forest_leaves(r@) == record_views_ms(tensors@),
            metadata@.len() == 0 ==> forest_sorted(r@) && forest_paths_ok(r@, Seq::empty())
                && forest_exp_ok(r@, true) && forest_groups_nonempty(r@) && forest_no_meta(r@)
                && forest_group_names_unique(r@) && (tensors@.len() == 0 ==> r@.len() == 0),
            metadata@.len() > 0 ==> {
                &&& r@.len() >= 1
                &&& r@[0] matches TreeNode::Group { .. }
                &&& (r@[0] matches TreeNode::Group {
                    name,
                    children,
                    expanded,
                    tensor_count,
                    total_size,
                } ==> {
                    &&& name@ == "\u{1F527} Metadata"@
                    &&& expanded == false
                    &&& tensor_count == 0
                    &&& total_size == 0
                    &&& children@.len() == metadata@.len()
                    &&& forall|k: int|
                        0 <= k < children@.len() ==> ((#[trigger] children@[k]) matches TreeNode::Metadata { .. })
                    &&& forall|i: int, j: int|
                        0 <= i < j < children@.len() ==> name_le(
                            tree_name(#[trigger] children@[i]),
                            tree_name(#[trigger] children@[j]),
                        )
                    &&& metas_of(children@) == meta_views_ms(metadata@)
                    &&& forall|mi: MetadataInfoV|
                        #![trigger has_meta(children@, mi)]
                        has_meta(children@, mi) <==> exists|i: int|
                            0 <= i < metadata@.len() && (#[trigger] metadata@[i])@ == mi
                })
                &&& forest_sorted(r@.skip(1))
                &&& forest_paths_ok(r@.skip(1), Seq::empty())
                &&& forest_exp_ok(r@.skip(1), true)
                &&& forest_groups_nonempty(r@.skip(1))
                &&& forest_no_meta(r@.skip(1))
                &&& forest_group_names_unique(r@.skip(1))
                &&& (tensors@.len() == 0 ==> r@.len() == 1)
            },
    {
        if metadata.len() == 0 {
            let r = Self::build_tree(tensors);
            return r;
        }
        let mut kids: Vec<TreeNode> = Vec::new();
        let mut i: usize = 0;
        while i < metadata.len()
            invariant
                i <= metadata@.len(),
                kids@.len() == i,
                forall|k: int|
                    0 <= k < kids@.len() ==> (#[trigger] kids@[k]) matches TreeNode::Metadata { .. },
                forall|k: int|
                    0 <= k < kids@.len() ==> node_meta(#[trigger] kids@[k]) == Some(
                        metadata@[k]@,
                    ),
            decreases metadata@.len() - i,
        {
            kids.push(TreeNode::Metadata { info: clone_metadata_info(&metadata[i]) });
            i = i + 1;
        }
        let ghost kids_view = kids@;
        let kids_sorted = sort_nodes(kids);
        let ghost kids_final = kids_sorted@;
        proof {
            assert forall|k: int|
                0 <= k < kids_final.len() implies (#[trigger] kids_final[k]) matches TreeNode::Metadata { .. } by {
                assert(kids_final.contains(kids_final[k]));
                let j = choose|j: int|
                    0 <= j < kids_view.len() && kids_view[j] == kids_final[k];
            }
            lemma_meta_forest_zero(kids_final);
            lemma_meta_leaves_ms(kids_view, metadata@);
            lemma_metas_of_perm(kids_view, kids_final);
            assert forall|mi: MetadataInfoV|
                #![trigger has_meta(kids_final, mi)]
                has_meta(kids_final, mi) <==> exists|i: int|
                    0 <= i < metadata@.len() && (#[trigger] metadata@[i])@ == mi by {
                if has_meta(kids_final, mi) {
                    let k = choose|k: int|
                        0 <= k < kids_final.len() && node_meta(#[trigger] kids_final[k]) == Some(
                            mi,
                        );
                    assert(kids_final.contains(kids_final[k]));
                    let j = choose|j: int|
                        0 <= j < kids_view.len() && kids_view[j] == kids_final[k];
                    assert(metadata@[j]@ == mi);
                }
                if exists|i: int| 0 <= i < metadata@.len() && (#[trigger] metadata@[i])@ == mi {
                    let j = choose|j: int|
                        0 <= j < metadata@.len() && (#[trigger] metadata@[j])@ == mi;
                    assert(node_meta(kids_view[j]) == Some(mi));
                    assert(kids_view.contains(kids_view[j]));
                    assert(kids_final.contains(kids_view[j]));
                    let k = choose|k: int|
                        0 <= k < kids_final.len() && kids_final[k] == kids_view[j];
                    assert(node_meta(kids_final[k]) == Some(mi));
                }
            }
        }
        let group = TreeNode::Group {
            name: String::from_str("\u{1F527} Metadata"),
            children: kids_sorted,
            expanded: false,
            tensor_count: 0,
            total_size: 0,
        };
        let mut r: Vec<TreeNode> = Vec::new();
        r.push(group);
        let ghost r1 = r@;
        let mut tensor_nodes = Self::build_tree(tensors);
        let ghost tpart = tensor_nodes@;
        r.append(&mut tensor_nodes);
        proof {
            broadcast use vstd::multiset::group_multiset_axioms;

            assert(r1.len() == 1);
            assert(r@ == r1 + tpart);
            assert(r@.skip(1) =~= tpart);
            assert(r@.remove(0) =~= tpart);
            lemma_forest_leaves_remove(r@, 0);
            assert(r@[0] == r1[0]);
            assert(node_leaves(r@[0]) == Multiset::<TensorInfoV>::empty());
            assert(forest_leaves(r@) =~= record_views_ms(tensors@));
            assert(forest_agg_ok(r@)) by {
                assert forall|k: int| 0 <= k < r@.len() implies node_agg_ok(#[trigger] r@[k]) by {
                    if k > 0 {
                        assert(r@[k] == tpart[k - 1]);
                    } else {
                        assert(r@[0] == r1[0]);
                        assert(forest_agg_ok(kids_final)) by {
                            assert forall|t: int|
                                0 <= t < kids_final.len() implies node_agg_ok(
                                #[trigger] kids_final[t],
                            ) by {
                                assert(kids_final[t] matches TreeNode::Metadata { .. });
                            }
                        }
                        assert(clamp_usize(0) == 0);
                    }
                }
            }
            assert forall|info: TensorInfoV|
                #![trigger forest_has_leaf(r@, info)]
                forest_has_leaf(r@, info) <==> exists|i: int|
                    0 <= i < tensors@.len() && (#[trigger] tensors@[i])@ == info by {
                if forest_has_leaf(r@, info) {
                    let k = choose|k: int|
                        0 <= k < r@.len() && node_has_leaf(#[trigger] r@[k], info);
                    if k == 0 {
                        assert(forest_has_leaf(kids_final, info));
                        let t = choose|t: int|
                            0 <= t < kids_final.len() && node_has_leaf(
                                #[trigger] kids_final[t],
                                info,
                            );
                        assert(kids_final[t] matches TreeNode::Metadata { .. });
                        assert(false);
                    } else {
                        assert(node_has_leaf(tpart[k - 1], info));
                        assert(forest_has_leaf(tpart, info));
                    }
                }
                if exists|i: int| 0 <= i < tensors@.len() && (#[trigger] tensors@[i])@ == info {
                    assert(forest_has_leaf(tpart, info));
                    let k = choose|k: int|
                        0 <= k < tpart.len() && node_has_leaf(#[trigger] tpart[k], info);
                    assert(node_has_leaf(r@[k + 1], info));
                }
            }
        }
        r
    }
}

// ---------------------------------------------------------------------------
// Flattening
// ---------------------------------------------------------------------------
/// The next depth down, held at the machine limit.
pub open spec fn sat_inc(d: usize) -> usize {
    if d == usize::MAX {
        d
    } else {
        (d + 1) as usize
    }
}

/// The currently visible rows of a forest, depth-first and pre-order: a
/// collapsed group contributes exactly one row, an expanded one its own row
/// followed by its children's rows one level deeper.
pub open spec fn spec_flatten(s: Seq<TreeNode>, depth: usize) -> Seq<(RowV, usize)>
    decreases s,
{
    if s.len() == 0 {
        Seq::empty()
    } else {
        spec_flatten_node(s[0], depth) + spec_flatten(s.drop_first(), depth)
    }
}

pub open spec fn spec_flatten_node(n: TreeNode, depth: usize) -> Seq<(RowV, usize)>
    decreases n,
{
    match n {
        TreeNode::Group { children, expanded, .. } => seq![(spec_row_of(n), depth)] + (if expanded {
            spec_flatten(children@, sat_inc(depth))
        } else {
            Seq::empty()
        }),
        _ => seq![(spec_row_of(n), depth)],
    }
}

/// A collapsed group, a tensor leaf and a metadata leaf each occupy exactly
/// one row, whatever stands beneath them.
pub proof fn lemma_collapsed_one_row(n: TreeNode, depth: usize)
    requires
        !(n matches TreeNode::Group { expanded: true, .. }),
    ensures
        spec_flatten_node(n, depth) == seq![(spec_row_of(n), depth)],
{
    match n {
        TreeNode::Group { .. } => {
            assert(spec_flatten_node(n, depth) =~= seq![(spec_row_of(n), depth)]);
        },
        _ => {},
    }
}

/// Appending one more node's rows extends a flattened forest at the end.
proof fn lemma_flatten_snoc(a: Seq<TreeNode>, x: TreeNode, depth: usize)
    ensures
        spec_flatten(a.push(x), depth) == spec_flatten(a, depth) + spec_flatten_node(x, depth),
    decreases a.len(),
{
    if a.len() == 0 {
        assert(a.push(x)[0] == x);
        assert(a.push(x).drop_first() =~= Seq::<TreeNode>::empty());
        assert(spec_flatten(Seq::<TreeNode>::empty(), depth) == Seq::<(RowV, usize)>::empty());
        assert(spec_flatten(a.push(x), depth) =~= spec_flatten_node(x, depth));
        assert(spec_flatten(a, depth) + spec_flatten_node(x, depth) =~= spec_flatten_node(
            x,
            depth,
        ));
    } else {
        assert(a.push(x)[0] == a[0]);
        assert(a.push(x).drop_first() =~= a.drop_first().push(x));
        lemma_flatten_snoc(a.drop_first(), x, depth);
        assert(spec_flatten(a.push(x), depth) =~= spec_flatten(a, depth) + spec_flatten_node(
            x,
            depth,
        ));
    }
}

pub open spec fn row_views(s: Seq<(RowNode, usize)>) -> Seq<(RowV, usize)> {
    Seq::new(s.len(), |i: int| ((s[i].0)@, s[i].1))
}

#[verifier::loop_isolation(false)]
fn flatten_into(node: &TreeNode, depth: usize, out: &mut Vec<(RowNode, usize)>)
    ensures
        row_views(final(out)@) == row_views(old(out)@) + spec_flatten_node(*node, depth),
    decreases node,
{
    let ghost base = out@;
    match node {
        TreeNode::Group { name, children, expanded, tensor_count, total_size } => {
            out.push(
                (
                    RowNode::Group {
                        name: name.clone(),
                        expanded: *expanded,
                        tensor_count: *tensor_count,
                        total_size: *total_size,
                    },
                    depth,
                ),
            );
            proof {
                assert(row_views(out@) =~= row_views(base) + seq![(spec_row_of(*node), depth)]);
            }
            if *expanded {
                let d2 = if depth == usize::MAX {
                    depth
                } else {
                    depth + 1
                };
                let ghost base2 = out@;
                let mut i: usize = 0;
                proof {
                    assert(children@.subrange(0, 0) =~= Seq::<TreeNode>::empty());
                    assert(row_views(out@) =~= row_views(base2) + spec_flatten(
                        children@.subrange(0, 0),
                        d2,
                    ));
                }
                while i < children.len()
                    invariant
                        i <= children@.len(),
                        d2 == sat_inc(depth),
                        row_views(out@) == row_views(base2) + spec_flatten(
                            children@.subrange(0, i as int),
                            d2,
                        ),
                    decreases children@.len() - i,
                {
                    proof {
                        assert(decreases_to!(node => children@[i as int]));
                    }
                    flatten_into(&children[i], d2, out);
                    proof {
                        assert(children@.subrange(0, i + 1) =~= children@.subrange(
                            0,
                            i as int,
                        ).push(children@[i as int]));
                        lemma_flatten_snoc(children@.subrange(0, i as int), children@[i as int], d2);
                        assert(row_views(out@) =~= row_views(base2) + spec_flatten(
                            children@.subrange(0, i + 1),
                            d2,
                        ));
                    }
                    i = i + 1;
                }
                proof {
                    assert(children@.subrange(0, children@.len() as int) =~= children@);
                    assert(row_views(out@) =~= row_views(base) + spec_flatten_node(*node, depth));
                }
            } else {
                proof {
                    assert(row_views(out@) =~= row_views(base) + spec_flatten_node(*node, depth));
                }
            }
        },
        TreeNode::Tensor { info } => {
            out.push((RowNode::Tensor { info: clone_tensor_info(info) }, depth));
            proof {
                assert(row_views(out@) =~= row_views(base) + spec_flatten_node(*node, depth));
            }
        },
        TreeNode::Metadata { info } => {
            out.push((RowNode::Metadata { info: clone_metadata_info(info) }, depth));
            proof {
                assert(row_views(out@) =~= row_views(base) + spec_flatten_node(*node, depth));
            }
        },
    }
}

// ---------------------------------------------------------------------------
// Toggling
// ---------------------------------------------------------------------------
/// Walks a subtree in the order flatten counts rows, looking for row
/// `target` from row `cur`: `Some(b)` when the row was located (`b` exactly
/// when it was a group), otherwise `None` with the counter after the
/// subtree. Children of a collapsed group are never visited.
pub open spec fn probe_node(n: TreeNode, target: int, cur: int) -> (Option<bool>, int)
    decreases n,
{
    if cur == target {
        match n {
            TreeNode::Group { .. } => (Some(true), cur),
            _ => (Some(false), cur),
        }
    } else {
        match n {
            TreeNode::Group { children, expanded, .. } => {
                if expanded {
                    probe_forest(children@, target, cur + 1)
                } else {
                    (None, cur + 1)
                }
            },
            _ => (None, cur + 1),
        }
    }
}

pub open spec fn probe_forest(s: Seq<TreeNode>, target: int, cur: int) -> (Option<bool>, int)
    decreases s,
{
    if s.len() == 0 {
        (None, cur)
    } else {
        let (o, c) = probe_node(s[0], target, cur);
        if o is Some {
            (o, c)
        } else {
            probe_forest(s.drop_first(), target, c)
        }
    }
}

/// A walk that has not yet reached its target never passes it: every row
/// number up to the target is visited in turn.
pub proof fn lemma_probe_node_bounds(n: TreeNode, target: int, cur: int)
    requires
        cur <= target,
    ensures
        ({
            let (o, c) = probe_node(n, target, cur);
            o is None ==> cur < c <= target
        }),
    decreases n,
{
    if cur != target {
        match n {
            TreeNode::Group { children, expanded, .. } => {
                if expanded {
                    lemma_probe_forest_bounds(children@, target, cur + 1);
                }
            },
            _ => {},
        }
    }
}

pub proof fn lemma_probe_forest_bounds(s: Seq<TreeNode>, target: int, cur: int)
    requires
        cur <= target,
    ensures
        ({
            let (o, c) = probe_forest(s, target, cur);
            o is None ==> cur <= c <= target
        }),
    decreases s,
{
    if s.len() > 0 {
        lemma_probe_node_bounds(s[0], target, cur);
        let (o, c) = probe_node(s[0], target, cur);
        if o is None {
            lemma_probe_forest_bounds(s.drop_first(), target, c);
        }
    }
}

/// The walk toggle-by-index makes agrees with flatten: starting at row
/// `cur`, a subtree occupies exactly its flattened rows, the walk finds the
/// target exactly when the target falls among them, and what it finds is a
/// group exactly when that row shows a group.
pub proof fn lemma_probe_matches_flatten_node(n: TreeNode, target: int, cur: int, depth: usize)
    requires
        cur <= target,
    ensures
        ({
            let (o, c) = probe_node(n, target, cur);
            let rows = spec_flatten_node(n, depth);
            &&& (o is Some <==> target - cur < rows.len())
            &&& (o is Some ==> o == Some((rows[target - cur].0 matches RowV::Group { .. })))
            &&& (o is None ==> c == cur + rows.len())
        }),
    decreases n,
{
    if cur != target {
        match n {
            TreeNode::Group { children, expanded, .. } => {
                if expanded {
                    lemma_probe_matches_flatten_forest(
                        children@,
                        target,
                        cur + 1,
                        sat_inc(depth),
                    );
                    let rows = spec_flatten_node(n, depth);
                    let inner_rows = spec_flatten(children@, sat_inc(depth));
                    assert(rows.len() == 1 + inner_rows.len());
                    let (o, c) = probe_node(n, target, cur);
                    if o is Some {
                        assert(rows[target - cur] == inner_rows[target - (cur + 1)]);
                    }
                }
            },
            _ => {},
        }
    }
}

pub proof fn lemma_probe_matches_flatten_forest(
    s: Seq<TreeNode>,
    target: int,
    cur: int,
    depth: usize,
)
    requires
        cur <= target,
    ensures
        ({
            let (o, c) = probe_forest(s, target, cur);
            let rows = spec_flatten(s, depth);
            &&& (o is Some <==> target - cur < rows.len())
            &&& (o is Some ==> o == Some((rows[target - cur].0 matches RowV::Group { .. })))
            &&& (o is None ==> c == cur + rows.len())
        }),
    decreases s,
{
    if s.len() > 0 {
        lemma_probe_matches_flatten_node(s[0], target, cur, depth);
        let (o0, c0) = probe_node(s[0], target, cur);
        let rows0 = spec_flatten_node(s[0], depth);
        let rows_rest = spec_flatten(s.drop_first(), depth);
        let rows = spec_flatten(s, depth);
        assert(rows.len() == rows0.len() + rows_rest.len());
        if o0 is Some {
            assert(rows[target - cur] == rows0[target - cur]);
        } else {
            lemma_probe_node_bounds(s[0], target, cur);
            lemma_probe_matches_flatten_forest(s.drop_first(), target, c0, depth);
            let (o1, _) = probe_forest(s.drop_first(), target, c0);
            if o1 is Some {
                assert(rows[target - cur] == rows_rest[target - c0]);
            }
        }
    }
}

/// Toggle-by-index locates rows exactly as flatten counts them: the walk
/// finds something at `target` exactly when that row exists in the current
/// flattened sequence, and reports a toggle exactly when the row shows a
/// group.
pub proof fn lemma_toggle_index_matches_rows(s: Seq<TreeNode>, target: usize)
    ensures
        probe_forest(s, target as int, 0).0 == (if (target as int) < spec_flatten(s, 0).len() {
            Some((spec_flatten(s, 0)[target as int].0 matches RowV::Group { .. }))
        } else {
            None::<bool>
        }),
{
    lemma_probe_matches_flatten_forest(s, target as int, 0, 0);
}

/// Structural equivalence of nodes: the same shape and fields, compared
/// through views (two nodes that print and behave alike are alike, whatever
/// allocations back their strings and vectors).
pub open spec fn node_like(a: TreeNode, b: TreeNode) -> bool
    decreases a,
{
    match (a, b) {
        (
            TreeNode::Group {
                name: an,
                children: ac,
                expanded: ae,
                tensor_count: atc,
                total_size: ats,
            },
            TreeNode::Group {
                name: bn,
                children: bc,
                expanded: be,
                tensor_count: btc,
                total_size: bts,
            },
        ) => an@ == bn@ && ae == be && atc == btc && ats == bts && forest_like(ac@, bc@),
        (TreeNode::Tensor { info: ai }, TreeNode::Tensor { info: bi }) => ai@ == bi@,
        (TreeNode::Metadata { info: ai }, TreeNode::Metadata { info: bi }) => ai@ == bi@,
        _ => false,
    }
}

pub open spec fn forest_like(x: Seq<TreeNode>, y: Seq<TreeNode>) -> bool
    decreases x,
{
    x.len() == y.len() && (forall|i: int| 0 <= i < x.len() ==> node_like(#[trigger] x[i], y[i]))
}

pub proof fn lemma_node_like_refl(n: TreeNode)
    ensures
        node_like(n, n),
    decreases n,
{
    match n {
        TreeNode::Group { children, .. } => {
            lemma_forest_like_refl(children@);
        },
        _ => {},
    }
}

pub proof fn lemma_forest_like_refl(s: Seq<TreeNode>)
    ensures
        forest_like(s, s),
    decreases s,
{
    assert forall|i: int| 0 <= i < s.len() implies node_like(#[trigger] s[i], s[i]) by {
        lemma_node_like_refl(s[i]);
    }
}

pub proof fn lemma_node_like_trans(a: TreeNode, b: TreeNode, c: TreeNode)
    requires
        node_like(a, b),
        node_like(b, c),
    ensures
        node_like(a, c),
    decreases a,
{
    match (a, b, c) {
        (
            TreeNode::Group { children: ac, .. },
            TreeNode::Group { children: bc, .. },
            TreeNode::Group { children: cc, .. },
        ) => {
            lemma_forest_like_trans(ac@, bc@, cc@);
        },
        _ => {},
    }
}

pub proof fn lemma_forest_like_trans(x: Seq<TreeNode>, y: Seq<TreeNode>, z: Seq<TreeNode>)
    requires
        forest_like(x, y),
        forest_like(y, z),
    ensures
        forest_like(x, z),
    decreases x,
{
    assert forall|i: int| 0 <= i < x.len() implies node_like(#[trigger] x[i], z[i]) by {
        lemma_node_like_trans(x[i], y[i], z[i]);
    }
}

/// The height measure the toggle walk descends by.
pub open spec fn node_height(n: TreeNode) -> nat
    decreases n,
{
    match n {
        TreeNode::Group { children, .. } => 1 + forest_height(children@),
        _ => 1,
    }
}

pub open spec fn forest_height(s: Seq<TreeNode>) -> nat
    decreases s,
{
    if s.len() == 0 {
        0
    } else {
        forest_height(s.drop_last()) + node_height(s.last())
    }
}

proof fn lemma_forest_height_elem(s: Seq<TreeNode>, i: int)
    requires
        0 <= i < s.len(),
    ensures
        node_height(s[i]) <= forest_height(s),
    decreases s,
{
    if i == s.len() - 1 {
    } else {
        assert(s.drop_last()[i] == s[i]);
        lemma_forest_height_elem(s.drop_last(), i);
    }
}

proof fn lemma_node_like_height(a: TreeNode, b: TreeNode)
    requires
        node_like(a, b),
    ensures
        node_height(a) == node_height(b),
    decreases a,
{
    match (a, b) {
        (TreeNode::Group { children: ac, .. }, TreeNode::Group { children: bc, .. }) => {
            lemma_forest_like_height(ac@, bc@);
        },
        _ => {},
    }
}

proof fn lemma_forest_like_height(x: Seq<TreeNode>, y: Seq<TreeNode>)
    requires
        forest_like(x, y),
    ensures
        forest_height(x) == forest_height(y),
    decreases x,
{
    if x.len() > 0 {
        lemma_node_like_height(x.last(), y.last());
        assert(forest_like(x.drop_last(), y.drop_last())) by {
            assert forall|i: int|
                0 <= i < x.drop_last().len() implies node_like(
                #[trigger] x.drop_last()[i],
                y.drop_last()[i],
            ) by {
                assert(x.drop_last()[i] == x[i]);
                assert(y.drop_last()[i] == y[i]);
            }
        }
        lemma_forest_like_height(x.drop_last(), y.drop_last());
    }
}

/// How toggling by row index rewrites a node: the group at the target row
/// gets its expansion flag inverted and keeps everything else; any other
/// node keeps its fields, with the rewrite descending only into an expanded
/// group that the walk enters.
pub open spec fn toggled_node(o: TreeNode, n: TreeNode, target: int, cur: int) -> bool
    decreases o,
{
    if cur == target {
        match (o, n) {
            (
                TreeNode::Group {
                    name: on,
                    children: oc,
                    expanded: oe,
                    tensor_count: otc,
                    total_size: ots,
                },
                TreeNode::Group {
                    name: nn,
                    children: nc,
                    expanded: ne,
                    tensor_count: ntc,
                    total_size: nts,
                },
            ) => nn@ == on@ && forest_like(oc@, nc@) && ne == !oe && ntc == otc && nts == ots,
            (TreeNode::Group { .. }, _) => false,
            _ => node_like(o, n),
        }
    } else {
        match (o, n) {
            (
                TreeNode::Group {
                    name: on,
                    children: oc,
                    expanded: oe,
                    tensor_count: otc,
                    total_size: ots,
                },
                TreeNode::Group {
                    name: nn,
                    children: nc,
                    expanded: ne,
                    tensor_count: ntc,
                    total_size: nts,
                },
            ) => nn@ == on@ && ne == oe && ntc == otc && nts == ots && (if oe {
                toggled_forest(oc@, nc@, target, cur + 1)
            } else {
                forest_like(oc@, nc@)
            }),
            (TreeNode::Group { .. }, _) => false,
            _ => node_like(o, n),
        }
    }
}

pub open spec fn toggled_forest(olds: Seq<TreeNode>, news: Seq<TreeNode>, target: int, cur: int) -> bool
    decreases olds,
{
    &&& news.len() == olds.len()
    &&& (olds.len() > 0 ==> {
        &&& toggled_node(olds[0], news[0], target, cur)
        &&& ({
            let (o, c) = probe_node(olds[0], target, cur);
            if o is Some {
                forest_like(olds.drop_first(), news.drop_first())
            } else {
                toggled_forest(olds.drop_first(), news.drop_first(), target, c)
            }
        })
    })
}

/// A walk that misses leaves the forest exactly as it was.
proof fn lemma_toggled_refl_node(n: TreeNode, target: int, cur: int)
    requires
        probe_node(n, target, cur).0 is None,
    ensures
        toggled_node(n, n, target, cur),
    decreases n,
{
    if cur != target {
        match n {
            TreeNode::Group { children, expanded, .. } => {
                if expanded {
                    lemma_toggled_refl_forest(children@, target, cur + 1);
                } else {
                    lemma_forest_like_refl(children@);
                }
            },
            _ => {
                lemma_node_like_refl(n);
            },
        }
    }
}

proof fn lemma_toggled_refl_forest(s: Seq<TreeNode>, target: int, cur: int)
    requires
        probe_forest(s, target, cur).0 is None,
    ensures
        toggled_forest(s, s, target, cur),
    decreases s,
{
    if s.len() > 0 {
        let (o, c) = probe_node(s[0], target, cur);
        lemma_toggled_refl_node(s[0], target, cur);
        lemma_toggled_refl_forest(s.drop_first(), target, c);
    }
}

#[verifier::loop_isolation(false)]
fn toggle_from(target: usize, nodes: &mut Vec<TreeNode>, i: usize, cur: usize) -> (r: (
    Option<bool>,
    usize,
))
    requires
        i <= old(nodes)@.len(),
        cur <= target,
    ensures
        ({
            let (o, c) = probe_forest(old(nodes)@.skip(i as int), target as int, cur as int);
            &&& r.0 == o
            &&& final(nodes)@.len() == old(nodes)@.len()
            &&& (forall|k: int| 0 <= k < i ==> final(nodes)@[k] == old(nodes)@[k])
            &&& toggled_forest(
                old(nodes)@.skip(i as int),
                final(nodes)@.skip(i as int),
                target as int,
                cur as int,
            )
            &&& (o is None ==> cur <= c <= target && r.1 == c && forest_like(
                old(nodes)@,
                final(nodes)@,
            ))
            &&& (o == Some(false) ==> forest_like(old(nodes)@, final(nodes)@))
        }),
    decreases forest_height(old(nodes)@), old(nodes)@.len() - i,
{
    let ghost orig = old(nodes)@;
    let ghost suffix = orig.skip(i as int);
    proof {
        lemma_probe_forest_bounds(suffix, target as int, cur as int);
    }
    if i >= nodes.len() {
        proof {
            assert(suffix.len() == 0);
            lemma_forest_like_refl(orig);
        }
        return (None, cur);
    }
    proof {
        assert(suffix[0] == orig[i as int]);
        assert(suffix.drop_first() =~= orig.skip(i as int + 1));
        lemma_probe_node_bounds(orig[i as int], target as int, cur as int);
    }
    if cur == target {
        let node = vstd::std_specs::vec::vec_index_mut(nodes, i);
        match node {
            TreeNode::Group { expanded, .. } => {
                *expanded = !*expanded;
                proof {
                    assert(nodes@ == orig.update(i as int, nodes@[i as int]));
                    assert(toggled_node(orig[i as int], nodes@[i as int], target as int,
                        cur as int)) by {
                        match orig[i as int] {
                            TreeNode::Group { children: oc, .. } => {
                                lemma_forest_like_refl(oc@);
                            },
                            _ => {},
                        }
                    }
                    assert(nodes@.skip(i as int)[0] == nodes@[i as int]);
                    assert(nodes@.skip(i as int).drop_first() =~= suffix.drop_first());
                    lemma_forest_like_refl(suffix.drop_first());
                    assert(toggled_forest(suffix, nodes@.skip(i as int), target as int,
                        cur as int));
                }
                return (Some(true), cur);
            },
            _ => {
                proof {
                    assert(nodes@ =~= orig);
                    lemma_node_like_refl(nodes@[i as int]);
                    lemma_forest_like_refl(nodes@);
                    lemma_forest_like_refl(orig);
                    assert(toggled_node(orig[i as int], nodes@[i as int], target as int,
                        cur as int));
                    assert(nodes@.skip(i as int)[0] == nodes@[i as int]);
                    assert(nodes@.skip(i as int).drop_first() =~= suffix.drop_first());
                    lemma_forest_like_refl(suffix.drop_first());
                    assert(toggled_forest(suffix, nodes@.skip(i as int), target as int,
                        cur as int));
                }
                return (Some(false), cur);
            },
        }
    }
    let mut c2: usize = cur + 1;
    let mut inner: Option<bool> = None;
    let node = vstd::std_specs::vec::vec_index_mut(nodes, i);
    let ghost old_node = *node;
    match node {
        TreeNode::Group { children, expanded, .. } => {
            if *expanded {
                proof {
                    assert(children@.skip(0) =~= children@);
                    lemma_forest_height_elem(orig, i as int);
                    assert(node_height(orig[i as int]) == 1 + forest_height(children@));
                }
                let (o, c) = toggle_from(target, children, 0, cur + 1);
                proof {
                    assert(children@.skip(0) =~= children@);
                }
                match o {
                    Some(b) => {
                        inner = Some(b);
                    },
                    None => {
                        c2 = c;
                    },
                }
            }
        },
        _ => {},
    }
    proof {
        assert(nodes@ == orig.update(i as int, nodes@[i as int]));
        assert(nodes@.len() == orig.len());
        assert(orig[i as int] == old_node);
        assert(toggled_node(orig[i as int], nodes@[i as int], target as int, cur as int)) by {
            match orig[i as int] {
                TreeNode::Group { children: oc, expanded: oe, .. } => {
                    if !oe {
                        lemma_node_like_refl(orig[i as int]);
                    }
                },
                _ => {
                    lemma_node_like_refl(orig[i as int]);
                },
            }
        }
        assert(probe_node(orig[i as int], target as int, cur as int).0 == (match inner {
            Some(b) => Some(b),
            None => None::<bool>,
        }));
        assert(inner is None ==> probe_node(orig[i as int], target as int, cur as int).1
            == c2 as int);
        if inner != Some(true) {
            assert(node_like(orig[i as int], nodes@[i as int])) by {
                match orig[i as int] {
                    TreeNode::Group { expanded: oe, .. } => {
                        if !oe {
                            lemma_node_like_refl(orig[i as int]);
                        }
                    },
                    _ => {
                        lemma_node_like_refl(orig[i as int]);
                    },
                }
            }
            assert(forest_like(orig, nodes@)) by {
                assert forall|k: int|
                    0 <= k < orig.len() implies node_like(#[trigger] orig[k], nodes@[k]) by {
                    if k != i {
                        assert(nodes@[k] == orig[k]);
                        lemma_node_like_refl(orig[k]);
                    }
                }
            }
        }
    }
    match inner {
        Some(b) => {
            proof {
                assert(nodes@.skip(i as int)[0] == nodes@[i as int]);
                assert(nodes@.skip(i as int).drop_first() =~= suffix.drop_first());
                lemma_forest_like_refl(suffix.drop_first());
                assert(toggled_forest(suffix, nodes@.skip(i as int), target as int, cur as int));
            }
            (Some(b), c2)
        },
        None => {
            proof {
                lemma_forest_like_height(orig, nodes@);
            }
            let ghost mid = nodes@;
            let r2 = toggle_from(target, nodes, i + 1, c2);
            proof {
                assert(nodes@.skip(i as int)[0] == nodes@[i as int]);
                assert(nodes@[i as int] == mid[i as int]);
                assert(nodes@.skip(i as int).drop_first() =~= nodes@.skip(i as int + 1));
                assert(mid.skip(i as int + 1) =~= suffix.drop_first()) by {
                    assert(mid == orig.update(i as int, mid[i as int]));
                    assert forall|k: int|
                        0 <= k < mid.skip(i as int + 1).len() implies #[trigger] mid.skip(
                        i as int + 1,
                    )[k] == suffix.drop_first()[k] by {
                        assert(mid[i as int + 1 + k] == orig[i as int + 1 + k]);
                    }
                }
                assert(toggled_forest(suffix, nodes@.skip(i as int), target as int, cur as int));
                let (o_all, _) = probe_forest(suffix, target as int, cur as int);
                if o_all is None || o_all == Some(false) {
                    lemma_forest_like_trans(orig, mid, nodes@);
                }
            }
            r2
        },
    }
}

/// Whether a pre-order walk that skips collapsed subtrees finds a group of
/// this name.
pub open spec fn name_found_node(n: TreeNode, target: Seq<char>) -> bool
    decreases n,
{
    match n {
        TreeNode::Group { name, children, expanded, .. } => name@ == target || (expanded
            && name_found_forest(children@, target)),
        _ => false,
    }
}

pub open spec fn name_found_forest(s: Seq<TreeNode>, target: Seq<char>) -> bool
    decreases s,
{
    if s.len() == 0 {
        false
    } else {
        name_found_node(s[0], target) || name_found_forest(s.drop_first(), target)
    }
}

/// How toggling by name rewrites a node: the first group of the target name
/// in pre-order gets its expansion flag inverted; the walk does not descend
/// into collapsed groups and stops at the first match.
pub open spec fn name_toggled_node(o: TreeNode, n: TreeNode, target: Seq<char>) -> bool
    decreases o,
{
    match (o, n) {
        (
            TreeNode::Group {
                name: on,
                children: oc,
                expanded: oe,
                tensor_count: otc,
                total_size: ots,
            },
            TreeNode::Group {
                name: nn,
                children: nc,
                expanded: ne,
                tensor_count: ntc,
                total_size: nts,
            },
        ) => {
            if on@ == target {
                nn@ == on@ && forest_like(oc@, nc@) && ne == !oe && ntc == otc && nts == ots
            } else {
                nn@ == on@ && ne == oe && ntc == otc && nts == ots && (if oe {
                    name_toggled_forest(oc@, nc@, target)
                } else {
                    forest_like(oc@, nc@)
                })
            }
        },
        (TreeNode::Group { .. }, _) => false,
        _ => node_like(o, n),
    }
}

pub open spec fn name_toggled_forest(
    olds: Seq<TreeNode>,
    news: Seq<TreeNode>,
    target: Seq<char>,
) -> bool
    decreases olds,
{
    &&& news.len() == olds.len()
    &&& (olds.len() > 0 ==> {
        &&& name_toggled_node(olds[0], news[0], target)
        &&& (if name_found_node(olds[0], target) {
            forest_like(olds.drop_first(), news.drop_first())
        } else {
            name_toggled_forest(olds.drop_first(), news.drop_first(), target)
        })
    })
}

proof fn lemma_name_toggled_refl_node(n: TreeNode, target: Seq<char>)
    requires
        !name_found_node(n, target),
    ensures
        name_toggled_node(n, n, target),
    decreases n,
{
    match n {
        TreeNode::Group { children, expanded, .. } => {
            if expanded {
                lemma_name_toggled_refl_forest(children@, target);
            } else {
                lemma_forest_like_refl(children@);
            }
        },
        _ => {
            lemma_node_like_refl(n);
        },
    }
}

proof fn lemma_name_toggled_refl_forest(s: Seq<TreeNode>, target: Seq<char>)
    requires
        !name_found_forest(s, target),
    ensures
        name_toggled_forest(s, s, target),
    decreases s,
{
    if s.len() > 0 {
        lemma_name_toggled_refl_node(s[0], target);
        lemma_name_toggled_refl_forest(s.drop_first(), target);
    }
}

/// Whether two strings hold the same characters.
#[verifier::loop_isolation(false)]
fn str_eq(a: &str, b: &str) -> (r: bool)
    ensures
        r == (a@ == b@),
{
    let an = a.unicode_len();
    let bn = b.unicode_len();
    if an != bn {
        return false;
    }
    let mut i: usize = 0;
    while i < an
        invariant
            i <= an,
            an == a@.len(),
            bn == b@.len(),
            an == bn,
            forall|k: int| 0 <= k < i ==> a@[k] == b@[k],
        decreases an - i,
    {
        if a.get_char(i) != b.get_char(i) {
            return false;
        }
        i = i + 1;
    }
    proof {
        assert(a@ =~= b@);
    }
    true
}

#[verifier::loop_isolation(false)]
fn toggle_name_from(target: &str, nodes: &mut Vec<TreeNode>, i: usize) -> (r: bool)
    requires
        i <= old(nodes)@.len(),
    ensures
        r == name_found_forest(old(nodes)@.skip(i as int), target@),
        final(nodes)@.len() == old(nodes)@.len(),
        forall|k: int| 0 <= k < i ==> final(nodes)@[k] == old(nodes)@[k],
        name_toggled_forest(old(nodes)@.skip(i as int), final(nodes)@.skip(i as int), target@),
        !r ==> forest_like(old(nodes)@, final(nodes)@),
    decreases forest_height(old(nodes)@), old(nodes)@.len() - i,
{
    let ghost orig = old(nodes)@;
    let ghost suffix = orig.skip(i as int);
    if i >= nodes.len() {
        proof {
            assert(suffix.len() == 0);
            lemma_forest_like_refl(orig);
        }
        return false;
    }
    proof {
        assert(suffix[0] == orig[i as int]);
        assert(suffix.drop_first() =~= orig.skip(i as int + 1));
    }
    let mut found_here = false;
    let mut found_inner = false;
    let node = vstd::std_specs::vec::vec_index_mut(nodes, i);
    let ghost old_node = *node;
    match node {
        TreeNode::Group { name, children, expanded, .. } => {
            if str_eq(name.as_str(), target) {
                *expanded = !*expanded;
                found_here = true;
                proof {
                    lemma_forest_like_refl(children@);
                }
            } else if *expanded {
                proof {
                    assert(children@.skip(0) =~= children@);
                    lemma_forest_height_elem(orig, i as int);
                    assert(node_height(orig[i as int]) == 1 + forest_height(children@));
                }
                let fin = toggle_name_from(target, children, 0, );
                found_inner = fin;
                proof {
                    assert(children@.skip(0) =~= children@);
                }
            }
        },
        _ => {},
    }
    proof {
        assert(nodes@ == orig.update(i as int, nodes@[i as int]));
        assert(orig[i as int] == old_node);
        assert(name_toggled_node(orig[i as int], nodes@[i as int], target@)) by {
            match orig[i as int] {
                TreeNode::Group { name: on, expanded: oe, .. } => {
                    if on@ != target@ && !oe {
                        lemma_node_like_refl(orig[i as int]);
                        assert(nodes@[i as int] == orig[i as int]);
                        match orig[i as int] {
                            TreeNode::Group { children: oc, .. } => {
                                lemma_forest_like_refl(oc@);
                            },
                            _ => {},
                        }
                    }
                },
                _ => {
                    lemma_node_like_refl(orig[i as int]);
                },
            }
        }
        assert((found_here || found_inner) == name_found_node(orig[i as int], target@));
        if !(found_here || found_inner) {
            assert(node_like(orig[i as int], nodes@[i as int])) by {
                match orig[i as int] {
                    TreeNode::Group { expanded: oe, .. } => {
                        if !oe {
                            lemma_node_like_refl(orig[i as int]);
                        }
                    },
                    _ => {
                        lemma_node_like_refl(orig[i as int]);
                    },
                }
            }
            assert(forest_like(orig, nodes@)) by {
                assert forall|k: int|
                    0 <= k < orig.len() implies node_like(#[trigger] orig[k], nodes@[k]) by {
                    if k != i {
                        assert(nodes@[k] == orig[k]);
                        lemma_node_like_refl(orig[k]);
                    }
                }
            }
        }
    }
    if found_here || found_inner {
        proof {
            assert(nodes@.skip(i as int)[0] == nodes@[i as int]);
            assert(nodes@.skip(i as int).drop_first() =~= suffix.drop_first());
            lemma_forest_like_refl(suffix.drop_first());
            assert(name_toggled_forest(suffix, nodes@.skip(i as int), target@));
        }
        return true;
    }
    proof {
        lemma_forest_like_height(orig, nodes@);
        lemma_name_toggled_refl_node(orig[i as int], target@);
    }
    let ghost mid = nodes@;
    let r2 = toggle_name_from(target, nodes, i + 1);
    proof {
        assert(nodes@.skip(i as int)[0] == nodes@[i as int]);
        assert(nodes@[i as int] == mid[i as int]);
        assert(nodes@.skip(i as int).drop_first() =~= nodes@.skip(i as int + 1));
        assert(mid.skip(i as int + 1) =~= suffix.drop_first()) by {
            assert forall|k: int|
                0 <= k < mid.skip(i as int + 1).len() implies #[trigger] mid.skip(i as int + 1)[k]
                    == suffix.drop_first()[k] by {
                assert(mid[i as int + 1 + k] == orig[i as int + 1 + k]);
            }
        }
        assert(name_toggled_node(orig[i as int], nodes@[i as int], target@)) by {
            lemma_name_toggled_refl_node(orig[i as int], target@);
        }
        assert(name_toggled_forest(suffix, nodes@.skip(i as int), target@));
        if !r2 {
            lemma_forest_like_trans(orig, mid, nodes@);
        }
    }
    r2
}

impl TreeBuilder {
    /// The currently visible rows of the forest, depth-first and pre-order,
    /// each with its depth: an expanded group's children follow it one level
    /// deeper; a collapsed subtree contributes exactly its group's row.
    #[verifier::loop_isolation(false)]
    pub fn flatten_tree(tree: &Vec<TreeNode>) -> (r: Vec<(RowNode, usize)>)
        ensures
            row_views(r@) == spec_flatten(tree@, 0),
    {
        let mut out: Vec<(RowNode, usize)> = Vec::new();
        let mut i: usize = 0;
        proof {
            assert(tree@.subrange(0, 0) =~= Seq::<TreeNode>::empty());
            assert(row_views(out@) =~= spec_flatten(tree@.subrange(0, 0), 0));
        }
        while i < tree.len()
            invariant
                i <= tree@.len(),
                row_views(out@) == spec_flatten(tree@.subrange(0, i as int), 0),
            decreases tree@.len() - i,
        {
            flatten_into(&tree[i], 0, &mut out);
            proof {
                assert(tree@.subrange(0, i + 1) =~= tree@.subrange(0, i as int).push(
                    tree@[i as int],
                ));
                lemma_flatten_snoc(tree@.subrange(0, i as int), tree@[i as int], 0);
            }
            i = i + 1;
        }
        proof {
            assert(tree@.subrange(0, tree@.len() as int) =~= tree@);
        }
        out
    }

    /// Toggles the group at the given row of the current flattened order:
    /// walks the rows depth-first, counting a collapsed group as one row and
    /// never visiting its children, and inverts the expansion flag of the
    /// group found at that row. Returns whether a group stood there; a
    /// tensor or metadata row is left alone and reported not toggled.
    pub fn toggle_node_by_index(target_idx: usize, nodes: &mut Vec<TreeNode>) -> (r: bool)
        ensures
            r == (probe_forest(old(nodes)@, target_idx as int, 0).0 == Some(true)),
            r == ((target_idx as int) < spec_flatten(old(nodes)@, 0).len() && (spec_flatten(
                old(nodes)@,
                0,
            )[target_idx as int].0 matches RowV::Group { .. })),
            final(nodes)@.len() == old(nodes)@.len(),
            toggled_forest(old(nodes)@, final(nodes)@, target_idx as int, 0),
            !r ==> forest_like(old(nodes)@, final(nodes)@),
    {
        proof {
            assert(old(nodes)@.skip(0) =~= old(nodes)@);
            lemma_toggle_index_matches_rows(old(nodes)@, target_idx);
        }
        let (o, _) = toggle_from(target_idx, nodes, 0, 0);
        proof {
            assert(nodes@.skip(0) =~= nodes@);
        }
        match o {
            Some(true) => true,
            _ => false,
        }
    }

    /// Toggles the first group, in pre-order among the visible part of the
    /// forest, whose name equals the target, and reports whether one was
    /// found. Identically named groups at different positions are not
    /// disambiguated: the first match wins.
    pub fn toggle_node_by_name(target: &str, nodes: &mut Vec<TreeNode>) -> (r: bool)
        ensures
            r == name_found_forest(old(nodes)@, target@),
            final(nodes)@.len() == old(nodes)@.len(),
            name_toggled_forest(old(nodes)@, final(nodes)@, target@),
            !r ==> forest_like(old(nodes)@, final(nodes)@),
    {
        proof {
            assert(old(nodes)@.skip(0) =~= old(nodes)@);
        }
        let r = toggle_name_from(target, nodes, 0);
        proof {
            assert(nodes@.skip(0) =~= nodes@);
        }
        r
    }
}

/// Structurally alike nodes hold the same tensor leaves, counts and sizes;
/// alikeness preserves the aggregate invariant.
pub proof fn lemma_like_node_agg(a: TreeNode, b: TreeNode)
    requires
        node_like(a, b),
    ensures
        node_tc(a) == node_tc(b),
        node_ts(a) == node_ts(b),
        node_agg_ok(a) ==> node_agg_ok(b),
    decreases a,
{
    match (a, b) {
        (TreeNode::Group { children: ac, .. }, TreeNode::Group { children: bc, .. }) => {
            lemma_like_forest_agg(ac@, bc@);
        },
        _ => {},
    }
}

pub proof fn lemma_like_forest_agg(x: Seq<TreeNode>, y: Seq<TreeNode>)
    requires
        forest_like(x, y),
    ensures
        forest_tc(x) == forest_tc(y),
        forest_ts(x) == forest_ts(y),
        forest_agg_ok(x) ==> forest_agg_ok(y),
    decreases x,
{
    if x.len() > 0 {
        lemma_like_node_agg(x.last(), y.last());
        assert(forest_like(x.drop_last(), y.drop_last())) by {
            assert forall|i: int|
                0 <= i < x.drop_last().len() implies node_like(
                #[trigger] x.drop_last()[i],
                y.drop_last()[i],
            ) by {
                assert(x.drop_last()[i] == x[i]);
                assert(y.drop_last()[i] == y[i]);
            }
        }
        lemma_like_forest_agg(x.drop_last(), y.drop_last());
        if forest_agg_ok(x) {
            assert forall|i: int| 0 <= i < y.len() implies node_agg_ok(#[trigger] y[i]) by {
                lemma_like_node_agg(x[i], y[i]);
            }
        }
    } else {
        if forest_agg_ok(x) {
            assert forall|i: int| 0 <= i < y.len() implies node_agg_ok(#[trigger] y[i]) by {
            }
        }
    }
}

/// Toggling an expansion flag moves no leaves: counts, sizes and the
/// aggregate invariant survive a toggle by row index.
pub proof fn lemma_toggled_node_agg(a: TreeNode, b: TreeNode, target: int, cur: int)
    requires
        toggled_node(a, b, target, cur),
    ensures
        node_tc(a) == node_tc(b),
        node_ts(a) == node_ts(b),
        node_agg_ok(a) ==> node_agg_ok(b),
    decreases a,
{
    match (a, b) {
        (
            TreeNode::Group { children: ac, expanded: ae, .. },
            TreeNode::Group { children: bc, .. },
        ) => {
            if cur == target {
                lemma_like_forest_agg(ac@, bc@);
            } else {
                if ae {
                    lemma_toggled_forest_agg(ac@, bc@, target, cur + 1);
                } else {
                    lemma_like_forest_agg(ac@, bc@);
                }
            }
        },
        _ => {},
    }
}

pub proof fn lemma_toggled_forest_agg(x: Seq<TreeNode>, y: Seq<TreeNode>, target: int, cur: int)
    requires
        toggled_forest(x, y, target, cur),
    ensures
        forest_tc(x) == forest_tc(y),
        forest_ts(x) == forest_ts(y),
        forest_agg_ok(x) ==> forest_agg_ok(y),
    decreases x,
{
    if x.len() > 0 {
        lemma_toggled_node_agg(x[0], y[0], target, cur);
        let (o, c) = probe_node(x[0], target, cur);
        if o is Some {
            lemma_like_forest_agg(x.drop_first(), y.drop_first());
        } else {
            lemma_toggled_forest_agg(x.drop_first(), y.drop_first(), target, c);
        }
        assert(x.drop_last().push(x.last()) =~= x);
        assert(y.drop_last().push(y.last()) =~= y);
        lemma_forest_sums_cons(x);
        lemma_forest_sums_cons(y);
        if forest_agg_ok(x) {
            assert forall|i: int| 0 <= i < y.len() implies node_agg_ok(#[trigger] y[i]) by {
                if i == 0 {
                    lemma_toggled_node_agg(x[0], y[0], target, cur);
                } else {
                    if o is Some {
                        assert(forest_like(x.drop_first(), y.drop_first()));
                        assert(y.drop_first()[i - 1] == y[i]);
                        assert(x.drop_first()[i - 1] == x[i]);
                        lemma_like_node_agg(x[i], y[i]);
                    } else {
                        assert(forest_agg_ok(x.drop_first())) by {
                            assert forall|k: int|
                                0 <= k < x.drop_first().len() implies node_agg_ok(
                                #[trigger] x.drop_first()[k],
                            ) by {
                                assert(x.drop_first()[k] == x[k + 1]);
                            }
                        }
                        assert(forest_agg_ok(y.drop_first()));
                        assert(y.drop_first()[i - 1] == y[i]);
                    }
                }
            }
        }
    }
}

/// A forest's sums unfold at the front as well as at the back.
proof fn lemma_forest_sums_cons(s: Seq<TreeNode>)
    requires
        s.len() > 0,
    ensures
        forest_tc(s) == node_tc(s[0]) + forest_tc(s.drop_first()),
        forest_ts(s) == node_ts(s[0]) + forest_ts(s.drop_first()),
    decreases s,
{
    if s.len() == 1 {
        assert(s.drop_first() =~= Seq::<TreeNode>::empty());
        assert(s.drop_last() =~= Seq::<TreeNode>::empty());
    } else {
        assert(s.drop_last().len() > 0);
        assert(s.drop_last()[0] == s[0]);
        lemma_forest_sums_cons(s.drop_last());
        assert(s.drop_last().drop_first() =~= s.drop_first().drop_last());
        assert(s.drop_first().last() == s.last());
    }
}

// ---------------------------------------------------------------------------
// Deduplication
// ---------------------------------------------------------------------------
/// Keep-first deduplication by record name: a record whose name was already
/// seen is dropped.
pub open spec fn dedup_rec(s: Seq<TensorInfo>, seen: Set<Seq<char>>) -> Seq<TensorInfo>
    decreases s.len(),
{
    if s.len() == 0 {
        Seq::empty()
    } else if seen.contains(s[0]@.name) {
        dedup_rec(s.drop_first(), seen)
    } else {
        seq![s[0]] + dedup_rec(s.drop_first(), seen.insert(s[0]@.name))
    }
}

/// The record sequence with every repeated name dropped, first occurrence
/// kept.
pub open spec fn spec_dedup(s: Seq<TensorInfo>) -> Seq<TensorInfo> {
    dedup_rec(s, Set::empty())
}

/// Drops every record whose name a record earlier in the sequence already
/// carries: first seen wins.
#[verifier::loop_isolation(false)]
pub fn dedup_records(records: Vec<TensorInfo>) -> (r: Vec<TensorInfo>)
    ensures
        r@ == spec_dedup(records@),
{
    let ghost input = records@;
    let mut rest = records;
    let mut out: Vec<TensorInfo> = Vec::new();
    let mut seen_names: Vec<String> = Vec::new();
    let ghost mut seen: Set<Seq<char>> = Set::empty();
    proof {
        assert(spec_dedup(input) == out@ + dedup_rec(rest@, seen));
    }
    while rest.len() > 0
        invariant
            spec_dedup(input) == out@ + dedup_rec(rest@, seen),
            forall|nm: Seq<char>|
                seen.contains(nm) <==> exists|i: int|
                    0 <= i < seen_names@.len() && (#[trigger] seen_names@[i])@ == nm,
        decreases rest@.len(),
    {
        let ghost old_rest = rest@;
        let x = rest.remove(0);
        proof {
            assert(rest@ =~= old_rest.drop_first());
        }
        let mut found = false;
        let mut i: usize = 0;
        while i < seen_names.len()
            invariant
                i <= seen_names@.len(),
                found <==> exists|t: int|
                    0 <= t < i && (#[trigger] seen_names@[t])@ == x@.name,
            decreases seen_names@.len() - i,
        {
            if seen_names[i].eq(&x.name) {
                proof {
                    assert((seen_names@[i as int])@ == x@.name);
                }
                found = true;
            }
            i = i + 1;
        }
        if found {
            proof {
                assert(seen.contains(x@.name));
                assert(dedup_rec(old_rest, seen) == dedup_rec(rest@, seen));
            }
        } else {
            proof {
                assert(!seen.contains(x@.name));
                assert(dedup_rec(old_rest, seen) == seq![x] + dedup_rec(
                    rest@,
                    seen.insert(x@.name),
                ));
            }
            let ghost old_out = out@;
            let ghost old_seen_names = seen_names@;
            seen_names.push(x.name.clone());
            out.push(x);
            proof {
                seen = seen.insert(old_rest[0]@.name);
                assert(out@ =~= old_out + seq![old_rest[0]]);
                assert(out@ + dedup_rec(rest@, seen) =~= old_out + (seq![old_rest[0]]
                    + dedup_rec(rest@, seen)));
                assert forall|nm: Seq<char>|
                    seen.contains(nm) <==> exists|t: int|
                        0 <= t < seen_names@.len() && (#[trigger] seen_names@[t])@ == nm by {
                    if seen.contains(nm) {
                        if nm == old_rest[0]@.name {
                            assert((seen_names@[seen_names@.len() - 1])@ == nm);
                        } else {
                            let t = choose|t: int|
                                0 <= t < old_seen_names.len() && (#[trigger] old_seen_names[t])@
                                    == nm;
                            assert((seen_names@[t])@ == nm);
                        }
                    } else {
                        if exists|t: int|
                            0 <= t < seen_names@.len() && (#[trigger] seen_names@[t])@ == nm {
                            let t = choose|t: int|
                                0 <= t < seen_names@.len() && (#[trigger] seen_names@[t])@ == nm;
                            if t < old_seen_names.len() {
                                assert((old_seen_names[t])@ == nm);
                            }
                        }
                    }
                }
            }
        }
    }
    proof {
        assert(dedup_rec(rest@, seen) =~= Seq::<TensorInfo>::empty());
        assert(out@ =~= out@ + Seq::<TensorInfo>::empty());
    }
    out
}

} // verus!
