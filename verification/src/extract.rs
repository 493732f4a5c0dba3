use vstd::prelude::*;
use crate::enums::NodeType;
use crate::tree::{TreeNode, TreeNodeView, lemma_nodes_view_index, lemma_nodes_view_len, node_view, nodes_view, spec_count_files};

verus! {

/// How far an extraction has come: files written out of files selected.
#[derive(Debug, Clone, PartialEq, Eq)]
pub struct ExtractionProgress {
    pub filecount: usize,
    pub finished_count: usize,
}

/// One step of extracting a selection: a folder to create, or a file to
/// write, at the place that the labels from the selection's top down to the
/// node name.
#[derive(Debug, Clone, PartialEq, Eq)]
pub struct ExtractStep {
    pub labels: Vec<Vec<u8>>,
    pub archive: Vec<u8>,
    pub node_type: NodeType,
}

pub struct ExtractStepView {
    pub labels: Seq<Seq<u8>>,
    pub archive: Seq<u8>,
    pub node_type: NodeType,
}

impl DeepView for ExtractStep {
    type V = ExtractStepView;

    open spec fn deep_view(&self) -> ExtractStepView {
        ExtractStepView {
            labels: self.labels.deep_view(),
            archive: self.archive@,
            node_type: self.node_type,
        }
    }
}

/// The steps for a list of nodes under the folder `prefix`, node after node.
pub open spec fn spec_plan(nodes: Seq<TreeNodeView>, prefix: Seq<Seq<u8>>) -> Seq<ExtractStepView>
    decreases nodes, 1nat,
{
    if nodes.len() == 0 {
        Seq::empty()
    } else {
        spec_plan(nodes.drop_last(), prefix) + spec_node_plan(nodes.last(), prefix)
    }
}

/// The steps for one node: its own step, then, for a folder, the steps of
/// its children under it.
pub open spec fn spec_node_plan(n: TreeNodeView, prefix: Seq<Seq<u8>>) -> Seq<ExtractStepView>
    decreases n, 0nat,
{
    let here = prefix.push(n.label);
    let own = ExtractStepView { labels: here, archive: n.path, node_type: n.node_type };
    match n.node_type {
        NodeType::Folder => seq![own] + spec_plan(n.children, here),
        NodeType::File { .. } => seq![own],
    }
}

/// The number of file steps.
pub open spec fn file_steps(steps: Seq<ExtractStepView>) -> nat
    decreases steps.len(),
{
    if steps.len() == 0 {
        0
    } else {
        file_steps(steps.drop_last()) + match steps.last().node_type {
            NodeType::File { .. } => 1nat,
            NodeType::Folder => 0nat,
        }
    }
}

proof fn lemma_file_steps_concat(a: Seq<ExtractStepView>, b: Seq<ExtractStepView>)
    ensures
        file_steps(a + b) == file_steps(a) + file_steps(b),
    decreases b.len(),
{
    if b.len() > 0 {
        lemma_file_steps_concat(a, b.drop_last());
        assert((a + b).drop_last() =~= a + b.drop_last());
    } else {
        assert(a + b =~= a);
    }
}

/// The plan writes exactly as many files as the selection holds file nodes:
/// an extraction that is not cancelled ends with its progress count equal to
/// the count of files it announced.
pub proof fn lemma_plan_counts_files(nodes: Seq<TreeNodeView>, prefix: Seq<Seq<u8>>)
    ensures
        file_steps(spec_plan(nodes, prefix)) == spec_count_files(nodes),
    decreases nodes, 1nat,
{
    if nodes.len() > 0 {
        lemma_plan_counts_files(nodes.drop_last(), prefix);
        lemma_node_plan_counts_files(nodes.last(), prefix);
        lemma_file_steps_concat(spec_plan(nodes.drop_last(), prefix), spec_node_plan(nodes.last(), prefix));
    }
}

proof fn lemma_node_plan_counts_files(n: TreeNodeView, prefix: Seq<Seq<u8>>)
    ensures
        file_steps(spec_node_plan(n, prefix)) == match n.node_type {
            NodeType::File { .. } => 1nat,
            NodeType::Folder => spec_count_files(n.children),
        },
    decreases n, 0nat,
{
    let here = prefix.push(n.label);
    let own = ExtractStepView { labels: here, archive: n.path, node_type: n.node_type };
    assert(seq![own].drop_last() =~= Seq::<ExtractStepView>::empty());
    assert(seq![own].last() == own);
    assert(file_steps(Seq::<ExtractStepView>::empty()) == 0);
    assert(file_steps(seq![own]) == match n.node_type {
        NodeType::File { .. } => 1nat,
        NodeType::Folder => 0nat,
    });
    match n.node_type {
        NodeType::Folder => {
            lemma_plan_counts_files(n.children, here);
            lemma_file_steps_concat(seq![own], spec_plan(n.children, here));
        },
        NodeType::File { .. } => {},
    }
}

fn clone_labels(v: &Vec<Vec<u8>>) -> (r: Vec<Vec<u8>>)
    ensures
        r.deep_view() == v.deep_view(),
{
    let mut r: Vec<Vec<u8>> = Vec::new();
    let mut i: usize = 0;
    while i < v.len()
        invariant
            0 <= i <= v@.len(),
            r.deep_view() == v.deep_view().take(i as int),
        decreases v@.len() - i,
    {
        let c = v[i].clone();
        let ghost before = r.deep_view();
        assert(c.deep_view() =~= c@);
        assert(v.deep_view()[i as int] =~= v@[i as int]@);
        r.push(c);
        assert(r.deep_view() =~= before.push(v.deep_view()[i as int]));
        i = i + 1;
        assert(r.deep_view() =~= v.deep_view().take(i as int));
    }
    assert(v.deep_view().take(i as int) =~= v.deep_view());
    r
}

/// Appends the steps of `nodes` under `prefix` to `out`.
fn plan_into(nodes: &Vec<TreeNode>, prefix: &Vec<Vec<u8>>, out: &mut Vec<ExtractStep>)
    ensures
        final(out).deep_view() == old(out).deep_view() + spec_plan(nodes_view(nodes@), prefix.deep_view()),
    decreases nodes@,
{
    let ghost v = nodes_view(nodes@);
    let ghost pv = prefix.deep_view();
    let ghost start = out.deep_view();
    proof {
        lemma_nodes_view_len(nodes@);
    }
    let mut i: usize = 0;
    while i < nodes.len()
        invariant
            0 <= i <= nodes@.len(),
            v == nodes_view(nodes@),
            v.len() == nodes@.len(),
            pv == prefix.deep_view(),
            start == old(out).deep_view(),
            out.deep_view() == start + spec_plan(v.take(i as int), pv),
        decreases nodes@.len() - i,
    {
        let node = &nodes[i];
        proof {
            lemma_nodes_view_index(nodes@, i as int);
            assert(v.take(i + 1).drop_last() =~= v.take(i as int));
        }
        let ghost nv = v[i as int];
        assert(nv == node_view(*node));
        let mut here = clone_labels(prefix);
        let label = node.label.clone();
        assert(label.deep_view() =~= label@);
        let ghost h0 = here.deep_view();
        here.push(label);
        assert(here.deep_view() =~= h0.push(label@));
        assert(here.deep_view() =~= pv.push(nv.label));
        let ghost before = out.deep_view();
        let step = ExtractStep { labels: clone_labels(&here), archive: node.path.clone(), node_type: node.node_type };
        out.push(step);
        let ghost own = ExtractStepView { labels: pv.push(nv.label), archive: nv.path, node_type: nv.node_type };
        assert(out.deep_view() =~= before.push(own));
        match node.node_type {
            NodeType::Folder => {
                assert(decreases_to!(nodes@ => nodes@[i as int].children@));
                plan_into(&node.children, &here, out);
                assert(out.deep_view() =~= start + (spec_plan(v.take(i as int), pv) + spec_node_plan(nv, pv)));
            },
            NodeType::File { .. } => {
                assert(out.deep_view() =~= start + (spec_plan(v.take(i as int), pv) + spec_node_plan(nv, pv)));
            },
        }
        i = i + 1;
    }
    assert(v.take(i as int) =~= v);
}

/// The steps that extract a selection, in the order the selection is walked
/// (each folder before what it holds), with the progress to report before the
/// first step: the number of files to write, none written yet.
pub fn plan_extraction(nodes: &Vec<TreeNode>) -> (r: (Vec<ExtractStep>, ExtractionProgress))
    ensures
        r.0.deep_view() == spec_plan(nodes_view(nodes@), Seq::empty()),
        r.1.filecount == spec_count_files(nodes_view(nodes@)),
        r.1.finished_count == 0,
{
    let mut steps: Vec<ExtractStep> = Vec::new();
    let top: Vec<Vec<u8>> = Vec::new();
    assert(top.deep_view() =~= Seq::<Seq<u8>>::empty());
    plan_into(nodes, &top, &mut steps);
    assert(steps.deep_view() =~= spec_plan(nodes_view(nodes@), Seq::empty()));
    let ghost sv = steps.deep_view();
    let mut count: usize = 0;
    let mut i: usize = 0;
    while i < steps.len()
        invariant
            0 <= i <= steps@.len(),
            sv == steps.deep_view(),
            count == file_steps(sv.take(i as int)),
            count <= i,
        decreases steps@.len() - i,
    {
        assert(sv.take(i + 1).drop_last() =~= sv.take(i as int));
        assert(sv[i as int] == steps[i as int].deep_view());
        match steps[i].node_type {
            NodeType::File { .. } => {
                count = count + 1;
            },
            NodeType::Folder => {},
        }
        i = i + 1;
    }
    assert(sv.take(i as int) =~= sv);
    proof {
        lemma_plan_counts_files(nodes_view(nodes@), Seq::empty());
    }
    (steps, ExtractionProgress { filecount: count, finished_count: 0 })
}

/// The name a file of a PAC archive is written under: its label, `_`, and
/// the type of what it holds.
pub fn pac_output_name(node: &TreeNode) -> (r: Vec<u8>)
    ensures
        r@ == node.label@ + seq![95u8] + node.contained_type@,
{
    let mut name = node.label.clone();
    name.push(95u8);
    let mut i: usize = 0;
    let ghost base = name@;
    while i < node.contained_type.len()
        invariant
            0 <= i <= node.contained_type@.len(),
            base == node.label@ + seq![95u8],
            name@ == base + node.contained_type@.take(i as int),
        decreases node.contained_type@.len() - i,
    {
        name.push(node.contained_type[i]);
        i = i + 1;
        assert(name@ =~= base + node.contained_type@.take(i as int));
    }
    assert(node.contained_type@.take(i as int) =~= node.contained_type@);
    name
}

} // verus!
