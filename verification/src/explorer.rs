//! The explorer session: the record set loaded from one or more files, the
//! namespace tree built from it, the flattened rows the display iterates,
//! and the selection that moves over them. Records from several files are
//! merged with first-seen-wins deduplication by name, then natural-sorted
//! before grouping; the tree is rebuilt in full whenever records change.

use vstd::prelude::*;
use vstd::string::StringExecFns;

use crate::gguf::GGUFFile;
use crate::natsort::name_le;
use crate::tree::{
    clamp_usize, clone_metadata_info, clone_tensor_info, dedup_records, forest_agg_ok,
    forest_has_leaf, forest_leaves, record_views_ms, row_views, sort_records, spec_dedup,
    spec_flatten, toggled_forest, MetadataInfo, RowNode, RowV, TensorInfo, TensorInfoV,
    TreeBuilder, TreeNode,
};

verus! {

/// The clamped product of a shape's extents: the element count of a tensor,
/// held at the machine limit (an empty shape is a scalar, one element).
pub open spec fn sat_prod(s: Seq<usize>) -> usize
    decreases s.len(),
{
    if s.len() == 0 {
        1
    } else {
        clamp_usize((sat_prod(s.drop_last()) as nat) * (s.last() as nat))
    }
}

fn sat_mul(a: usize, b: usize) -> (r: usize)
    ensures
        r == clamp_usize((a as nat) * (b as nat)),
{
    if b != 0 && a > usize::MAX / b {
        proof {
            assert((a as nat) * (b as nat) > usize::MAX) by (nonlinear_arith)
                requires
                    b >= 1,
                    a > usize::MAX / b,
                    usize::MAX / b == usize::MAX as nat / b as nat,
            ;
        }
        usize::MAX
    } else {
        proof {
            if b != 0 {
                assert((a as nat) * (b as nat) <= usize::MAX) by (nonlinear_arith)
                    requires
                        b >= 1,
                        a <= usize::MAX / b,
                        usize::MAX / b == usize::MAX as nat / b as nat,
                ;
            }
        }
        a * b
    }
}

fn sat_add_usize(a: usize, b: usize) -> (r: usize)
    ensures
        r == clamp_usize(a as nat + b as nat),
{
    if a > usize::MAX - b {
        usize::MAX
    } else {
        a + b
    }
}

/// The total element count over a run of records, clamped at the machine
/// limit.
pub open spec fn params_sum(s: Seq<TensorInfo>) -> nat
    decreases s.len(),
{
    if s.len() == 0 {
        0
    } else {
        (params_sum(s.drop_last()) + s.last().num_elements) as nat
    }
}

/// The format-agnostic records of a decoded GGUF file, in file order: each
/// tensor's name, its encoding's display label, its extents, its element
/// count (the clamped product of the extents) and its byte size per the
/// quantization catalog.
#[verifier::loop_isolation(false)]
pub fn gguf_tensor_records(file: &GGUFFile) -> (r: Vec<TensorInfo>)
    ensures
        r@.len() == file.tensors@.len(),
        forall|i: int|
            0 <= i < r@.len() ==> {
                let t = file.tensors@[i];
                let rec = (#[trigger] r@[i])@;
                &&& rec.name == t.name@
                &&& rec.dtype == t.tensor_type.spec_label()
                &&& rec.shape.len() == t.dimensions@.len()
                &&& (forall|j: int|
                    0 <= j < rec.shape.len() ==> #[trigger] rec.shape[j] == t.dimensions@[j] as usize)
                &&& rec.num_elements == sat_prod(rec.shape)
                &&& rec.size_bytes == t.tensor_type.spec_tensor_size_bytes(rec.num_elements)
            },
{
    let mut out: Vec<TensorInfo> = Vec::new();
    let mut i: usize = 0;
    while i < file.tensors.len()
        invariant
            i <= file.tensors@.len(),
            out@.len() == i,
            forall|k: int|
                0 <= k < out@.len() ==> {
                    let t = file.tensors@[k];
                    let rec = (#[trigger] out@[k])@;
                    &&& rec.name == t.name@
                    &&& rec.dtype == t.tensor_type.spec_label()
                    &&& rec.shape.len() == t.dimensions@.len()
                    &&& (forall|j: int|
                        0 <= j < rec.shape.len() ==> #[trigger] rec.shape[j] == t.dimensions@[j] as usize)
                    &&& rec.num_elements == sat_prod(rec.shape)
                    &&& rec.size_bytes == t.tensor_type.spec_tensor_size_bytes(rec.num_elements)
                },
        decreases file.tensors@.len() - i,
    {
        let t = &file.tensors[i];
        let mut shape: Vec<usize> = Vec::new();
        let mut num_elements: usize = 1;
        let mut j: usize = 0;
        proof {
            assert(shape@.subrange(0, 0) =~= Seq::<usize>::empty());
        }
        while j < t.dimensions.len()
            invariant
                j <= t.dimensions@.len(),
                shape@.len() == j,
                forall|k: int|
                    0 <= k < shape@.len() ==> #[trigger] shape@[k] == t.dimensions@[k] as usize,
                num_elements == sat_prod(shape@),
            decreases t.dimensions@.len() - j,
        {
            let d = t.dimensions[j];
            let dd: usize = #[verifier::truncate] (d as usize);
            let ghost old_shape = shape@;
            shape.push(dd);
            num_elements = sat_mul(num_elements, dd);
            proof {
                assert(shape@.drop_last() =~= old_shape);
            }
            j = j + 1;
        }
        let size_bytes = t.tensor_type.tensor_size_bytes(num_elements);
        out.push(
            TensorInfo {
                name: t.name.clone(),
                dtype: String::from_str(t.tensor_type.label()),
                shape,
                size_bytes,
                num_elements,
            },
        );
        i = i + 1;
    }
    out
}

/// What acting on the selected row asks of the surrounding program: nothing
/// (a group was toggled in place), show a tensor's details, show a metadata
/// entry's details, or nothing was selected.
#[derive(Debug)]
pub enum SelectionAction {
    Toggled,
    ShowTensor(TensorInfo),
    ShowMetadata(MetadataInfo),
    OutOfRange,
}

/// The records loaded in this session and the tree built over them. The
/// flattened rows always mirror the tree; the tree's aggregates always
/// match its leaves; the only in-place mutation is an expansion toggle,
/// which re-derives the rows at once.
pub struct Explorer {
    pub files: Vec<String>,
    pub tensors: Vec<TensorInfo>,
    pub metadata: Vec<MetadataInfo>,
    pub tree: Vec<TreeNode>,
    pub selected_idx: usize,
    pub scroll_offset: usize,
    pub flattened_tree: Vec<(RowNode, usize)>,
    pub total_parameters: usize,
}

/// The session invariant: rows mirror the tree, aggregates match the
/// leaves.
pub open spec fn explorer_wf(e: Explorer) -> bool {
    &&& row_views(e.flattened_tree@) == spec_flatten(e.tree@, 0)
    &&& forest_agg_ok(e.tree@)
}

/// Where the selection lands after moving by `delta` over `len` rows:
/// clamped at the first and last row, unchanged when there are no rows.
pub open spec fn moved_selection(sel: int, delta: int, len: int) -> int {
    if len == 0 {
        sel
    } else if delta < 0 {
        if sel + delta >= 0 {
            sel + delta
        } else {
            0
        }
    } else {
        if sel + delta <= len - 1 {
            sel + delta
        } else {
            len - 1
        }
    }
}

impl Explorer {
    /// A fresh session over the given file names, nothing loaded yet.
    pub fn new(files: Vec<String>) -> (r: Explorer)
        ensures
            r.files == files,
            r.tensors@.len() == 0,
            r.metadata@.len() == 0,
            r.tree@.len() == 0,
            r.selected_idx == 0,
            r.scroll_offset == 0,
            r.flattened_tree@.len() == 0,
            r.total_parameters == 0,
            explorer_wf(r),
    {
        let e = Explorer {
            files,
            tensors: Vec::new(),
            metadata: Vec::new(),
            tree: Vec::new(),
            selected_idx: 0,
            scroll_offset: 0,
            flattened_tree: Vec::new(),
            total_parameters: 0,
        };
        proof {
            assert(row_views(e.flattened_tree@) =~= spec_flatten(e.tree@, 0));
        }
        e
    }

    /// Takes the records read from the session's files: duplicates by name
    /// are dropped (first seen wins), the rest natural-sorted; the total
    /// parameter count and the tree with its flattened rows are re-derived
    /// in full.
    #[verifier::loop_isolation(false)]
    pub fn load_records(&mut self, tensors: Vec<TensorInfo>, metadata: Vec<MetadataInfo>)
        ensures
            final(self).tensors@.to_multiset() == spec_dedup(tensors@).to_multiset(),
            forall|i: int, j: int|
                0 <= i < j < final(self).tensors@.len() ==> name_le(
                    (#[trigger] final(self).tensors@[i])@.name,
                    (#[trigger] final(self).tensors@[j])@.name,
                ),
            final(self).metadata@ == metadata@,
            final(self).total_parameters == clamp_usize(params_sum(final(self).tensors@)),
            forall|info: TensorInfoV|
                #![trigger forest_has_leaf(final(self).tree@, info)]
                forest_has_leaf(final(self).tree@, info) <==> exists|i: int|
                    0 <= i < final(self).tensors@.len() && (#[trigger] final(self).tensors@[i])@
                        == info,
            forest_leaves(final(self).tree@) == record_views_ms(final(self).tensors@),
            explorer_wf(*final(self)),
            final(self).files == old(self).files,
            final(self).selected_idx == old(self).selected_idx,
            final(self).scroll_offset == old(self).scroll_offset,
    {
        let deduped = dedup_records(tensors);
        let sorted = sort_records(deduped);
        self.tensors = sorted;
        self.metadata = metadata;
        let mut total: usize = 0;
        let mut i: usize = 0;
        proof {
            assert(self.tensors@.subrange(0, 0) =~= Seq::<TensorInfo>::empty());
        }
        while i < self.tensors.len()
            invariant
                i <= self.tensors@.len(),
                total == clamp_usize(params_sum(self.tensors@.subrange(0, i as int))),
            decreases self.tensors@.len() - i,
        {
            proof {
                assert(self.tensors@.subrange(0, i + 1).drop_last() =~= self.tensors@.subrange(
                    0,
                    i as int,
                ));
            }
            total = sat_add_usize(total, self.tensors[i].num_elements);
            i = i + 1;
        }
        proof {
            assert(self.tensors@.subrange(0, self.tensors@.len() as int) =~= self.tensors@);
        }
        self.total_parameters = total;
        self.build_tree();
    }

    /// Rebuilds the tree (and its rows) from the current record set: the
    /// plain tensor forest, with the synthetic metadata group in front when
    /// metadata entries are present.
    fn build_tree(&mut self)
        ensures
            forest_agg_ok(final(self).tree@),
            forall|info: TensorInfoV|
                #![trigger forest_has_leaf(final(self).tree@, info)]
                forest_has_leaf(final(self).tree@, info) <==> exists|i: int|
                    0 <= i < final(self).tensors@.len() && (#[trigger] final(self).tensors@[i])@
                        == info,
            forest_leaves(final(self).tree@) == record_views_ms(final(self).tensors@),
            explorer_wf(*final(self)),
            final(self).tensors == old(self).tensors,
            final(self).metadata == old(self).metadata,
            final(self).files == old(self).files,
            final(self).selected_idx == old(self).selected_idx,
            final(self).scroll_offset == old(self).scroll_offset,
            final(self).total_parameters == old(self).total_parameters,
    {
        if self.metadata.len() == 0 {
            self.tree = TreeBuilder::build_tree(&self.tensors);
        } else {
            self.tree = TreeBuilder::build_tree_mixed(&self.tensors, &self.metadata);
        }
        self.flatten_tree();
    }

    /// Re-derives the flattened rows from the tree.
    fn flatten_tree(&mut self)
        ensures
            row_views(final(self).flattened_tree@) == spec_flatten(final(self).tree@, 0),
            final(self).tree == old(self).tree,
            final(self).tensors == old(self).tensors,
            final(self).metadata == old(self).metadata,
            final(self).files == old(self).files,
            final(self).selected_idx == old(self).selected_idx,
            final(self).scroll_offset == old(self).scroll_offset,
            final(self).total_parameters == old(self).total_parameters,
    {
        self.flattened_tree = TreeBuilder::flatten_tree(&self.tree);
    }

    /// Moves the selection by `delta` rows, staying on the first and last
    /// row at the edges; with no rows the selection stays put.
    pub fn move_selection(&mut self, delta: i32)
        ensures
            final(self).selected_idx as int == moved_selection(
                old(self).selected_idx as int,
                delta as int,
                old(self).flattened_tree@.len() as int,
            ),
            final(self).flattened_tree == old(self).flattened_tree,
            final(self).tree == old(self).tree,
            final(self).tensors == old(self).tensors,
            final(self).metadata == old(self).metadata,
            final(self).files == old(self).files,
            final(self).scroll_offset == old(self).scroll_offset,
            final(self).total_parameters == old(self).total_parameters,
    {
        if self.flattened_tree.len() == 0 {
            return ;
        }
        if delta < 0 {
            let mag64: u64 = (-(delta as i64)) as u64;
            let mag: usize = mag64 as usize;
            self.selected_idx = if self.selected_idx < mag {
                0
            } else {
                self.selected_idx - mag
            };
        } else {
            let d: usize = delta as usize;
            let last = self.flattened_tree.len() - 1;
            let stepped: usize = if self.selected_idx > usize::MAX - d {
                usize::MAX
            } else {
                self.selected_idx + d
            };
            self.selected_idx = if stepped > last {
                last
            } else {
                stepped
            };
        }
    }

    /// Acts on the selected row: a group row is toggled in place and the
    /// rows re-derived; a tensor or metadata row is handed back for the
    /// surrounding program to show; with nothing selected, nothing happens.
    #[verifier::loop_isolation(false)]
    pub fn handle_selection(&mut self) -> (r: SelectionAction)
        ensures
            explorer_wf(*old(self)) ==> explorer_wf(*final(self)),
            row_views(final(self).flattened_tree@) == spec_flatten(final(self).tree@, 0)
                || *final(self) == *old(self),
            old(self).selected_idx >= old(self).flattened_tree@.len() ==> (r matches SelectionAction::OutOfRange)
                && *final(self) == *old(self),
            old(self).selected_idx < old(self).flattened_tree@.len() ==> {
                let row = row_views(old(self).flattened_tree@)[old(self).selected_idx as int].0;
                match row {
                    RowV::Group { .. } => (r matches SelectionAction::Toggled) && toggled_forest(
                        old(self).tree@,
                        final(self).tree@,
                        old(self).selected_idx as int,
                        0,
                    ) && row_views(final(self).flattened_tree@) == spec_flatten(
                        final(self).tree@,
                        0,
                    ),
                    RowV::Tensor { info } => (r matches SelectionAction::ShowTensor(t) ==> t@
                        == info) && (r matches SelectionAction::ShowTensor { .. }) && *final(self)
                        == *old(self),
                    RowV::Metadata { info } => (r matches SelectionAction::ShowMetadata(m) ==> m@
                        == info) && (r matches SelectionAction::ShowMetadata { .. }) && *final(self)
                        == *old(self),
                }
            },
            final(self).tensors == old(self).tensors,
            final(self).metadata == old(self).metadata,
            final(self).files == old(self).files,
            final(self).selected_idx == old(self).selected_idx,
            final(self).scroll_offset == old(self).scroll_offset,
            final(self).total_parameters == old(self).total_parameters,
    {
        let idx = self.selected_idx;
        if idx >= self.flattened_tree.len() {
            return SelectionAction::OutOfRange;
        }
        let act: SelectionAction = match &self.flattened_tree[idx].0 {
            RowNode::Group { .. } => SelectionAction::Toggled,
            RowNode::Tensor { info } => SelectionAction::ShowTensor(clone_tensor_info(info)),
            RowNode::Metadata { info } => SelectionAction::ShowMetadata(clone_metadata_info(info)),
        };
        match &act {
            SelectionAction::Toggled => {
                let ghost pre_tree = self.tree@;
                let _ = TreeBuilder::toggle_node_by_index(idx, &mut self.tree);
                proof {
                    if forest_agg_ok(pre_tree) {
                        crate::tree::lemma_toggled_forest_agg(pre_tree, self.tree@, idx as int, 0);
                    }
                }
                self.flattened_tree = TreeBuilder::flatten_tree(&self.tree);
            },
            _ => {},
        }
        act
    }
}

} // verus!
