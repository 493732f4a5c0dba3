use vstd::prelude::*;
use vstd::slice::slice_to_vec;
use vstd::string::StringSliceAdditionalSpecFns;
use crate::decimal::{decimal, digits_value, lemma_decimal_digits, spec_parse_usize, to_decimal};
use crate::enums::{NodeType, RowData, RowValue};
use crate::error::FormatError;
use crate::tree::{
    TreeNode, TreeNodeView, lemma_nodes_view_index, lemma_nodes_view_len, lemma_nodes_view_map,
    node_view, nodes_view, spec_next_key, spec_next_key_node,
};
use crate::utf::{ColumnView, UTFPacket, UTFTableView, read_table, spec_read_table};
use crate::cursor::{ByteCursor, can_take, le_u32, le_u64, read_bytes, take_bytes};
use crate::packet::{Packet, apply_key_stream, packet_fits};
use crate::crilayla::{Crilayla, crilayla_fits, spec_decompress};

verus! {

/// The fields of one row of a CPK table of contents that the archive views use.
#[derive(Debug, Clone, PartialEq, Eq)]
pub struct TocEntry {
    pub dir_name: Vec<u8>,
    pub file_name: Vec<u8>,
    pub file_offset: u64,
    pub file_size: u32,
    pub extract_size: u32,
}

pub struct TocEntryView {
    pub dir_name: Seq<u8>,
    pub file_name: Seq<u8>,
    pub file_offset: u64,
    pub file_size: u32,
    pub extract_size: u32,
}

impl DeepView for TocEntry {
    type V = TocEntryView;

    open spec fn deep_view(&self) -> TocEntryView {
        TocEntryView {
            dir_name: self.dir_name@,
            file_name: self.file_name@,
            file_offset: self.file_offset,
            file_size: self.file_size,
            extract_size: self.extract_size,
        }
    }
}

/// One line of the archive table shown to the user.
#[derive(Debug, Clone, PartialEq, Eq)]
pub struct DataTableRow {
    pub dir_name: Vec<u8>,
    pub file_name: Vec<u8>,
    pub file_size: u32,
    pub extract_size: u32,
    pub file_offset: u32,
    pub path: Vec<u8>,
}

pub struct DataTableRowView {
    pub dir_name: Seq<u8>,
    pub file_name: Seq<u8>,
    pub file_size: u32,
    pub extract_size: u32,
    pub file_offset: u32,
    pub path: Seq<u8>,
}

impl DeepView for DataTableRow {
    type V = DataTableRowView;

    open spec fn deep_view(&self) -> DataTableRowView {
        DataTableRowView {
            dir_name: self.dir_name@,
            file_name: self.file_name@,
            file_size: self.file_size,
            extract_size: self.extract_size,
            file_offset: self.file_offset,
            path: self.path@,
        }
    }
}

/// The tree and the table of the opened archives.
#[derive(Debug, PartialEq, Eq)]
pub struct CPKResult {
    pub tree: Vec<TreeNode>,
    pub rows: Vec<DataTableRow>,
}

// ---------------------------------------------------------------------------
// Reading the table of contents.
// ---------------------------------------------------------------------------

/// The index of the last column named `name` among the first `k` columns.
pub open spec fn last_column_named(cols: Seq<ColumnView>, name: Seq<u8>, k: int) -> Option<int>
    decreases k,
{
    if k <= 0 {
        None
    } else if cols[k - 1].Name == name {
        Some(k - 1)
    } else {
        last_column_named(cols, name, k - 1)
    }
}

/// The cell of a row under a column name, as a map from names to cells built
/// column by column would give it (a later column of the same name wins).
pub open spec fn spec_field(cols: Seq<ColumnView>, row: Seq<Option<RowValue>>, name: Seq<u8>) -> Option<
    Option<RowValue>,
> {
    match last_column_named(cols, name, cols.len() as int) {
        Some(k) => if k < row.len() {
            Some(row[k])
        } else {
            None
        },
        None => None,
    }
}

/// The table-of-contents entry of a row: `FileOffset` (64-bit), `FileSize` and
/// `ExtractSize` (32-bit), `DirName` and `FileName` (strings) must all be present.
pub open spec fn spec_toc_entry(cols: Seq<ColumnView>, row: Seq<Option<RowValue>>) -> Result<
    TocEntryView,
    FormatError,
> {
    match (
        spec_field(cols, row, "FileOffset".spec_bytes()),
        spec_field(cols, row, "FileSize".spec_bytes()),
        spec_field(cols, row, "ExtractSize".spec_bytes()),
        spec_field(cols, row, "DirName".spec_bytes()),
        spec_field(cols, row, "FileName".spec_bytes()),
    ) {
        (
            Some(Some(RowValue::UInt64(o))),
            Some(Some(RowValue::UInt32(s))),
            Some(Some(RowValue::UInt32(x))),
            Some(Some(RowValue::String(d))),
            Some(Some(RowValue::String(f))),
        ) => Ok(
            TocEntryView { dir_name: d, file_name: f, file_offset: o, file_size: s, extract_size: x },
        ),
        _ => Err(FormatError::MissingField),
    }
}

/// The entries of the rows `rows[..k]`.
pub open spec fn spec_toc_entries(
    cols: Seq<ColumnView>,
    rows: Seq<Seq<Option<RowValue>>>,
    k: int,
) -> Result<Seq<TocEntryView>, FormatError>
    decreases k,
{
    if k <= 0 {
        Ok(Seq::empty())
    } else {
        match spec_toc_entries(cols, rows, k - 1) {
            Err(e) => Err(e),
            Ok(es) => match spec_toc_entry(cols, rows[k - 1]) {
                Err(e) => Err(e),
                Ok(en) => Ok(es.push(en)),
            },
        }
    }
}

/// Whether two byte strings are equal.
pub fn bytes_eq(a: &Vec<u8>, b: &Vec<u8>) -> (r: bool)
    ensures
        r == (a@ == b@),
{
    if a.len() != b.len() {
        return false;
    }
    let n = a.len();
    let mut i: usize = 0;
    while i < n
        invariant
            0 <= i <= n,
            n == a@.len(),
            n == b@.len(),
            forall|k: int| 0 <= k < i ==> a@[k] == b@[k],
        decreases n - i,
    {
        if a[i] != b[i] {
            return false;
        }
        i = i + 1;
    }
    assert(a@ =~= b@);
    true
}

fn str_bytes(s: &str) -> (v: Vec<u8>)
    ensures
        v@ == s.spec_bytes(),
{
    slice_to_vec(s.as_bytes())
}

/// The cell of row `row` under the column named `name` (the last such column).
fn field<'a>(toc: &'a UTFPacket, row: usize, name: &Vec<u8>) -> (r: Option<&'a Option<RowData>>)
    requires
        row < toc.UTFRowsData@.len(),
    ensures
        match r {
            Some(c) => spec_field(
                toc.column_instances.deep_view(),
                toc.UTFRowsData.deep_view()[row as int],
                name@,
            ) == Some(c.deep_view()),
            None => spec_field(
                toc.column_instances.deep_view(),
                toc.UTFRowsData.deep_view()[row as int],
                name@,
            ) is None,
        },
{
    let ghost cols = toc.column_instances.deep_view();
    let mut k = toc.column_instances.len();
    while k > 0
        invariant
            k <= toc.column_instances@.len(),
            row < toc.UTFRowsData@.len(),
            cols == toc.column_instances.deep_view(),
            last_column_named(cols, name@, cols.len() as int) == last_column_named(
                cols,
                name@,
                k as int,
            ),
        decreases k,
    {
        assert(cols[k - 1] == toc.column_instances@[k - 1].deep_view());
        if bytes_eq(&toc.column_instances[k - 1].Name, name) {
            let cells = &toc.UTFRowsData[row];
            assert(toc.UTFRowsData.deep_view()[row as int] == cells.deep_view());
            if k - 1 < cells.len() {
                assert(cells.deep_view()[k - 1] == cells@[k - 1].deep_view());
                return Some(&cells[k - 1]);
            } else {
                return None;
            }
        }
        k = k - 1;
    }
    None
}

/// Reads the entry of one row.
fn toc_entry(toc: &UTFPacket, row: usize) -> (r: Result<TocEntry, FormatError>)
    requires
        row < toc.UTFRowsData@.len(),
    ensures
        match r {
            Ok(e) => spec_toc_entry(
                toc.column_instances.deep_view(),
                toc.UTFRowsData.deep_view()[row as int],
            ) == Ok::<TocEntryView, FormatError>(e.deep_view()),
            Err(e) => spec_toc_entry(
                toc.column_instances.deep_view(),
                toc.UTFRowsData.deep_view()[row as int],
            ) == Err::<TocEntryView, FormatError>(e),
        },
{
    let file_offset = match field(toc, row, &str_bytes("FileOffset")) {
        Some(Some(RowData::UInt64(v))) => *v,
        _ => return Err(FormatError::MissingField),
    };
    let file_size = match field(toc, row, &str_bytes("FileSize")) {
        Some(Some(RowData::UInt32(v))) => *v,
        _ => return Err(FormatError::MissingField),
    };
    let extract_size = match field(toc, row, &str_bytes("ExtractSize")) {
        Some(Some(RowData::UInt32(v))) => *v,
        _ => return Err(FormatError::MissingField),
    };
    let dir_name = match field(toc, row, &str_bytes("DirName")) {
        Some(Some(RowData::String(v))) => v.clone(),
        _ => return Err(FormatError::MissingField),
    };
    let file_name = match field(toc, row, &str_bytes("FileName")) {
        Some(Some(RowData::String(v))) => v.clone(),
        _ => return Err(FormatError::MissingField),
    };
    Ok(TocEntry { dir_name, file_name, file_offset, file_size, extract_size })
}

/// Reads the entries of all rows of a table of contents; fails on the first
/// row that lacks one of the fields.
pub fn toc_entries(toc: &UTFPacket) -> (r: Result<Vec<TocEntry>, FormatError>)
    ensures
        ({
            let spec = spec_toc_entries(
                toc.column_instances.deep_view(),
                toc.UTFRowsData.deep_view(),
                toc.UTFRowsData@.len() as int,
            );
            match r {
                Ok(es) => spec == Ok::<Seq<TocEntryView>, FormatError>(es.deep_view()),
                Err(e) => spec == Err::<Seq<TocEntryView>, FormatError>(e),
            }
        }),
{
    let n = toc.UTFRowsData.len();
    let mut out: Vec<TocEntry> = Vec::new();
    assert(out.deep_view() =~= Seq::<TocEntryView>::empty());
    let mut k: usize = 0;
    while k < n
        invariant
            0 <= k <= n,
            out@.len() == k,
            n == toc.UTFRowsData@.len(),
            spec_toc_entries(toc.column_instances.deep_view(), toc.UTFRowsData.deep_view(), k as int)
                == Ok::<Seq<TocEntryView>, FormatError>(out.deep_view()),
        decreases n - k,
    {
        let ghost before = out.deep_view();
        let e = match toc_entry(toc, k) {
            Ok(e) => e,
            Err(err) => {
                proof {
                    lemma_toc_entries_error_extends(
                        toc.column_instances.deep_view(),
                        toc.UTFRowsData.deep_view(),
                        k + 1,
                        n as int,
                    );
                }
                return Err(err);
            },
        };
        out.push(e);
        assert(out.deep_view() =~= before.push(out@[k as int].deep_view()));
        k = k + 1;
    }
    Ok(out)
}

proof fn lemma_toc_entries_error_extends(
    cols: Seq<ColumnView>,
    rows: Seq<Seq<Option<RowValue>>>,
    k: int,
    n: int,
)
    requires
        0 <= k <= n,
        spec_toc_entries(cols, rows, k) is Err,
    ensures
        spec_toc_entries(cols, rows, n) == spec_toc_entries(cols, rows, k),
    decreases n - k,
{
    if k < n {
        lemma_toc_entries_error_extends(cols, rows, k + 1, n);
    }
}

// ---------------------------------------------------------------------------
// The folder tree of a CPK archive.
// ---------------------------------------------------------------------------

/// The parts of `s` between `/` separators, folded from the left: the
/// completed parts and the part in progress.
pub open spec fn split_slash_acc(s: Seq<u8>) -> (Seq<Seq<u8>>, Seq<u8>)
    decreases s.len(),
{
    if s.len() == 0 {
        (Seq::empty(), Seq::empty())
    } else {
        let (parts, cur) = split_slash_acc(s.drop_last());
        if s.last() == 47 {
            (parts.push(cur), Seq::empty())
        } else {
            (parts, cur.push(s.last()))
        }
    }
}

/// The parts of `s` between `/` separators (one part, possibly empty, when
/// there is no separator).
pub open spec fn split_slash(s: Seq<u8>) -> Seq<Seq<u8>> {
    split_slash_acc(s).0.push(split_slash_acc(s).1)
}

/// The index of the first node labelled `label` at or after `j`.
pub open spec fn first_label(nodes: Seq<TreeNodeView>, label: Seq<u8>, j: int) -> Option<int>
    decreases nodes.len() - j,
{
    if j < 0 || j >= nodes.len() {
        None
    } else if nodes[j].label == label {
        Some(j)
    } else {
        first_label(nodes, label, j + 1)
    }
}

/// A new folder node.
pub open spec fn folder_node(key: int, label: Seq<u8>, path: Seq<u8>, children: Seq<
    TreeNodeView,
>) -> TreeNodeView {
    TreeNodeView {
        key: decimal(key as nat),
        label,
        node_type: NodeType::Folder,
        children,
        path,
        contained_type: Seq::empty(),
    }
}

/// A new file node for a table-of-contents entry.
pub open spec fn file_node(key: int, e: TocEntryView, path: Seq<u8>) -> TreeNodeView {
    TreeNodeView {
        key: decimal(key as nat),
        label: e.file_name,
        node_type: NodeType::File {
            file_offset: e.file_offset,
            file_size: e.file_size,
            extract_size: e.extract_size,
        },
        children: Seq::empty(),
        path,
        contained_type: Seq::empty(),
    }
}

/// A node with other children.
pub open spec fn with_children(n: TreeNodeView, children: Seq<TreeNodeView>) -> TreeNodeView {
    TreeNodeView {
        key: n.key,
        label: n.label,
        node_type: n.node_type,
        children,
        path: n.path,
        contained_type: n.contained_type,
    }
}

/// Inserting an entry below `nodes` along the folder names `parts[d..]`:
/// each folder is the first node with that label, or a new folder appended
/// with the next key; at the end of the path the file is appended with the
/// next key unless a node of its name is already there.  Gives the new
/// nodes and the next key.
pub open spec fn spec_insert(
    nodes: Seq<TreeNodeView>,
    parts: Seq<Seq<u8>>,
    d: int,
    e: TocEntryView,
    path: Seq<u8>,
    key: int,
) -> (Seq<TreeNodeView>, int)
    decreases parts.len() - d,
{
    if d >= parts.len() {
        if first_label(nodes, e.file_name, 0) is Some {
            (nodes, key)
        } else {
            (nodes.push(file_node(key, e, path)), key + 1)
        }
    } else {
        match first_label(nodes, parts[d], 0) {
            Some(i) => {
                let (c, k) = spec_insert(nodes[i].children, parts, d + 1, e, path, key);
                (nodes.update(i, with_children(nodes[i], c)), k)
            },
            None => {
                let (c, k) = spec_insert(Seq::empty(), parts, d + 1, e, path, key + 1);
                (nodes.push(folder_node(key, parts[d], path, c)), k)
            },
        }
    }
}

/// The tree after the entries are inserted one after the other, and the next key.
pub open spec fn spec_build_tree(
    nodes: Seq<TreeNodeView>,
    entries: Seq<TocEntryView>,
    path: Seq<u8>,
    key: int,
) -> (Seq<TreeNodeView>, int)
    decreases entries.len(),
{
    if entries.len() == 0 {
        (nodes, key)
    } else {
        let (n1, k1) = spec_build_tree(nodes, entries.drop_last(), path, key);
        spec_insert(n1, split_slash(entries.last().dir_name), 0, entries.last(), path, k1)
    }
}

/// Inserting an entry never lowers the next key.
pub proof fn lemma_insert_key_grows(
    nodes: Seq<TreeNodeView>,
    parts: Seq<Seq<u8>>,
    d: int,
    e: TocEntryView,
    path: Seq<u8>,
    key: int,
)
    ensures
        spec_insert(nodes, parts, d, e, path, key).1 >= key,
    decreases parts.len() - d,
{
    if d < parts.len() {
        match first_label(nodes, parts[d], 0) {
            Some(i) => lemma_insert_key_grows(nodes[i].children, parts, d + 1, e, path, key),
            None => lemma_insert_key_grows(Seq::empty(), parts, d + 1, e, path, key + 1),
        }
    }
}

/// Splits a path at its `/` separators.
pub fn split_dir_name(s: &Vec<u8>) -> (r: Vec<Vec<u8>>)
    ensures
        r.deep_view() == split_slash(s@),
{
    let mut parts: Vec<Vec<u8>> = Vec::new();
    let mut cur: Vec<u8> = Vec::new();
    let n = s.len();
    let mut i: usize = 0;
    while i < n
        invariant
            0 <= i <= n,
            n == s@.len(),
            (parts.deep_view(), cur@) == split_slash_acc(s@.take(i as int)),
        decreases n - i,
    {
        assert(s@.take(i + 1).drop_last() =~= s@.take(i as int));
        let b = s[i];
        if b == 47 {
            let ghost before = parts.deep_view();
            let ghost c = cur@;
            assert(cur.deep_view() =~= cur@);
            parts.push(cur);
            assert(parts.deep_view() =~= before.push(c));
            cur = Vec::new();
        } else {
            cur.push(b);
        }
        i = i + 1;
        assert(s@.take(i as int).last() == b);
    }
    assert(s@.take(n as int) =~= s@);
    let ghost before = parts.deep_view();
    let ghost c = cur@;
    assert(cur.deep_view() =~= cur@);
    parts.push(cur);
    assert(parts.deep_view() =~= before.push(c));
    parts
}

proof fn lemma_first_label_range(nodes: Seq<TreeNodeView>, label: Seq<u8>, j: int)
    ensures
        first_label(nodes, label, j) matches Some(i) ==> 0 <= i < nodes.len() && nodes[i].label
            == label,
    decreases nodes.len() - j,
{
    if 0 <= j < nodes.len() && nodes[j].label != label {
        lemma_first_label_range(nodes, label, j + 1);
    }
}

/// The index of the first node labelled `label`.
fn find_label(nodes: &Vec<TreeNode>, label: &Vec<u8>) -> (r: Option<usize>)
    ensures
        match r {
            Some(i) => first_label(nodes_view(nodes@), label@, 0) == Some(i as int),
            None => first_label(nodes_view(nodes@), label@, 0) is None,
        },
{
    let ghost v = nodes_view(nodes@);
    proof {
        lemma_nodes_view_len(nodes@);
    }
    let n = nodes.len();
    let mut j: usize = 0;
    while j < n
        invariant
            0 <= j <= n,
            n == nodes@.len(),
            v == nodes_view(nodes@),
            v.len() == n,
            first_label(v, label@, 0) == first_label(v, label@, j as int),
        decreases n - j,
    {
        proof {
            lemma_nodes_view_index(nodes@, j as int);
        }
        if bytes_eq(&nodes[j].label, label) {
            return Some(j);
        }
        j = j + 1;
    }
    None
}

proof fn lemma_nodes_view_push(s: Seq<TreeNode>, n: TreeNode)
    ensures
        nodes_view(s.push(n)) == nodes_view(s).push(node_view(n)),
{
    assert(s.push(n).drop_last() =~= s);
}

proof fn lemma_nodes_view_replace(s: Seq<TreeNode>, i: int, n: TreeNode)
    requires
        0 <= i < s.len(),
    ensures
        nodes_view(s.remove(i).insert(i, n)) == nodes_view(s).update(i, node_view(n)),
{
    let t = s.remove(i).insert(i, n);
    assert(t =~= s.update(i, n));
    lemma_nodes_view_map(s);
    lemma_nodes_view_map(t);
}

/// Inserting below an empty list makes a new node for every folder left and
/// one for the file.
proof fn lemma_insert_into_empty(parts: Seq<Seq<u8>>, d: int, e: TocEntryView, path: Seq<u8>, key: int)
    requires
        0 <= d <= parts.len(),
    ensures
        spec_insert(Seq::empty(), parts, d, e, path, key).1 == key + (parts.len() - d) + 1,
    decreases parts.len() - d,
{
    if d < parts.len() {
        lemma_insert_into_empty(parts, d + 1, e, path, key + 1);
    }
}

/// Whether inserting the entry from `key` on keeps every new key within a `usize`.
fn insert_fits(
    nodes: &Vec<TreeNode>,
    parts: &Vec<Vec<u8>>,
    d: usize,
    entry: &TocEntry,
    path: &Vec<u8>,
    key: usize,
) -> (r: bool)
    requires
        d <= parts@.len(),
    ensures
        r == (spec_insert(
            nodes_view(nodes@),
            parts.deep_view(),
            d as int,
            entry.deep_view(),
            path@,
            key as int,
        ).1 <= usize::MAX),
    decreases parts@.len() - d,
{
    let ghost pv = parts.deep_view();
    if d >= parts.len() {
        if find_label(nodes, &entry.file_name).is_some() {
            return true;
        }
        return key < usize::MAX;
    }
    assert(pv[d as int] == parts@[d as int]@);
    match find_label(nodes, &parts[d]) {
        Some(i) => {
            proof {
                lemma_first_label_range(nodes_view(nodes@), pv[d as int], 0);
                lemma_nodes_view_len(nodes@);
                lemma_nodes_view_index(nodes@, i as int);
            }
            insert_fits(&nodes[i].children, parts, d + 1, entry, path, key)
        },
        None => {
            proof {
                lemma_insert_into_empty(pv, d + 1, entry.deep_view(), path@, key + 1);
            }
            key < usize::MAX && usize::MAX - key - 1 >= parts.len() - d
        },
    }
}

/// Inserts an entry below `nodes` along `parts[d..]` (see `spec_insert`).
fn insert_entry(
    nodes: Vec<TreeNode>,
    parts: &Vec<Vec<u8>>,
    d: usize,
    entry: &TocEntry,
    path: &Vec<u8>,
    next_key: &mut usize,
) -> (r: Vec<TreeNode>)
    requires
        d <= parts@.len(),
        spec_insert(
            nodes_view(nodes@),
            parts.deep_view(),
            d as int,
            entry.deep_view(),
            path@,
            *old(next_key) as int,
        ).1 <= usize::MAX,
    ensures
        (nodes_view(r@), *final(next_key) as int) == spec_insert(
            nodes_view(nodes@),
            parts.deep_view(),
            d as int,
            entry.deep_view(),
            path@,
            *old(next_key) as int,
        ),
    decreases parts@.len() - d,
{
    let ghost e = entry.deep_view();
    let ghost pv = parts.deep_view();
    if d >= parts.len() {
        if find_label(&nodes, &entry.file_name).is_some() {
            return nodes;
        }
        let key = *next_key;
        let node = TreeNode {
            key: to_decimal(key as u64),
            label: entry.file_name.clone(),
            node_type: NodeType::File {
                file_offset: entry.file_offset,
                file_size: entry.file_size,
                extract_size: entry.extract_size,
            },
            children: Vec::new(),
            path: path.clone(),
            contained_type: Vec::new(),
        };
        assert(node_view(node) == file_node(key as int, e, path@));
        *next_key = key + 1;
        let mut nodes = nodes;
        proof {
            lemma_nodes_view_push(nodes@, node);
        }
        nodes.push(node);
        return nodes;
    }
    assert(pv[d as int] == parts@[d as int]@);
    match find_label(&nodes, &parts[d]) {
        Some(i) => {
            let mut nodes = nodes;
            let ghost s = nodes@;
            proof {
                lemma_first_label_range(nodes_view(s), pv[d as int], 0);
                lemma_nodes_view_len(s);
                lemma_nodes_view_index(s, i as int);
            }
            let node = nodes.remove(i);
            let TreeNode { key, label, node_type, children, path: node_path, contained_type } = node;
            let new_children = insert_entry(children, parts, d + 1, entry, path, next_key);
            let rebuilt = TreeNode {
                key,
                label,
                node_type,
                children: new_children,
                path: node_path,
                contained_type,
            };
            assert(node_view(rebuilt) == with_children(nodes_view(s)[i as int], nodes_view(new_children@)));
            proof {
                lemma_nodes_view_replace(s, i as int, rebuilt);
            }
            nodes.insert(i, rebuilt);
            nodes
        },
        None => {
            let key = *next_key;
            proof {
                lemma_insert_key_grows(Seq::empty(), pv, d + 1, e, path@, key + 1);
            }
            *next_key = key + 1;
            let empty: Vec<TreeNode> = Vec::new();
            assert(nodes_view(empty@) == Seq::<TreeNodeView>::empty());
            let children = insert_entry(empty, parts, d + 1, entry, path, next_key);
            let folder = TreeNode {
                key: to_decimal(key as u64),
                label: parts[d].clone(),
                node_type: NodeType::Folder,
                children,
                path: path.clone(),
                contained_type: Vec::new(),
            };
            assert(node_view(folder) == folder_node(key as int, pv[d as int], path@, nodes_view(folder.children@)));
            let mut nodes = nodes;
            proof {
                lemma_nodes_view_push(nodes@, folder);
            }
            nodes.push(folder);
            nodes
        },
    }
}

/// Adding more entries never lowers the next key.
pub proof fn lemma_build_tree_key_grows(
    nodes: Seq<TreeNodeView>,
    entries: Seq<TocEntryView>,
    path: Seq<u8>,
    key: int,
    k: int,
)
    requires
        0 <= k <= entries.len(),
    ensures
        spec_build_tree(nodes, entries.take(k), path, key).1 <= spec_build_tree(
            nodes,
            entries,
            path,
            key,
        ).1,
    decreases entries.len() - k,
{
    if k < entries.len() {
        lemma_build_tree_key_grows(nodes, entries, path, key, k + 1);
        let t = entries.take(k + 1);
        assert(t.drop_last() =~= entries.take(k));
        let (n1, k1) = spec_build_tree(nodes, entries.take(k), path, key);
        lemma_insert_key_grows(n1, split_slash(t.last().dir_name), 0, t.last(), path, k1);
    } else {
        assert(entries.take(k) =~= entries);
    }
}

/// Adds the entries of one archive to the folder tree (see `spec_build_tree`):
/// folders along each directory name, then the file unless a node of its
/// name is already in its folder.  New nodes take consecutive keys from
/// `next_key`.  Fails when a key would not fit in a `usize`; the tree and the
/// next key then hold the entries before the first one whose keys do not fit.
pub fn build_tree_cpk(
    tree_nodes: &mut Vec<TreeNode>,
    next_key: &mut usize,
    entries: &Vec<TocEntry>,
    cpk_path: &Vec<u8>,
) -> (r: Result<(), FormatError>)
    ensures
        ({
            let (nv, k) = spec_build_tree(
                nodes_view(old(tree_nodes)@),
                entries.deep_view(),
                cpk_path@,
                *old(next_key) as int,
            );
            match r {
                Ok(_) => k <= usize::MAX && nodes_view(final(tree_nodes)@) == nv && *final(next_key)
                    == k,
                Err(e) => k > usize::MAX && e == FormatError::Overflow && exists|i: int|
                    0 <= i < entries@.len() && #[trigger] spec_build_tree(
                        nodes_view(old(tree_nodes)@),
                        entries.deep_view().take(i),
                        cpk_path@,
                        *old(next_key) as int,
                    ) == (nodes_view(final(tree_nodes)@), *final(next_key) as int)
                        && spec_build_tree(
                        nodes_view(old(tree_nodes)@),
                        entries.deep_view().take(i + 1),
                        cpk_path@,
                        *old(next_key) as int,
                    ).1 > usize::MAX,
            }
        }),
{
    let ghost ev = entries.deep_view();
    let ghost n0 = nodes_view(tree_nodes@);
    let ghost k0 = *next_key as int;
    let n = entries.len();
    let mut i: usize = 0;
    while i < n
        invariant
            0 <= i <= n,
            n == entries@.len(),
            ev == entries.deep_view(),
            n0 == nodes_view(old(tree_nodes)@),
            k0 == *old(next_key),
            (nodes_view(tree_nodes@), *next_key as int) == spec_build_tree(
                n0,
                ev.take(i as int),
                cpk_path@,
                k0,
            ),
        decreases n - i,
    {
        let entry = &entries[i];
        assert(ev[i as int] == entry.deep_view());
        assert(ev.take(i + 1).drop_last() =~= ev.take(i as int));
        let parts = split_dir_name(&entry.dir_name);
        if !insert_fits(tree_nodes, &parts, 0, entry, cpk_path, *next_key) {
            proof {
                lemma_build_tree_key_grows(n0, ev, cpk_path@, k0, i + 1);
                assert(spec_build_tree(n0, ev.take(i as int), cpk_path@, k0) == (
                    nodes_view(tree_nodes@),
                    *next_key as int,
                ));
            }
            return Err(FormatError::Overflow);
        }
        let mut current: Vec<TreeNode> = Vec::new();
        std::mem::swap(&mut current, tree_nodes);
        *tree_nodes = insert_entry(current, &parts, 0, entry, cpk_path, next_key);
        i = i + 1;
    }
    assert(ev.take(n as int) =~= ev);
    Ok(())
}

/// Whether the folders `parts[d..]` lead, each through the first node of its
/// name, to a folder that holds a node named `name`.
pub open spec fn path_present(nodes: Seq<TreeNodeView>, parts: Seq<Seq<u8>>, d: int, name: Seq<u8>) -> bool
    decreases parts.len() - d,
{
    if d >= parts.len() {
        first_label(nodes, name, 0) is Some
    } else {
        match first_label(nodes, parts[d], 0) {
            Some(i) => path_present(nodes[i].children, parts, d + 1, name),
            None => false,
        }
    }
}

/// Whether the entry's file is in the tree under its directory name.
pub open spec fn entry_present(nodes: Seq<TreeNodeView>, e: TocEntryView) -> bool {
    path_present(nodes, split_slash(e.dir_name), 0, e.file_name)
}

/// Appending a node keeps every first match, and the appended node is the
/// first match of its label when there was none.
proof fn lemma_first_label_push(nodes: Seq<TreeNodeView>, x: TreeNodeView, label: Seq<u8>, j: int)
    requires
        0 <= j <= nodes.len(),
    ensures
        first_label(nodes, label, j) is Some ==> first_label(nodes.push(x), label, j) == first_label(
            nodes,
            label,
            j,
        ),
        first_label(nodes, label, j) is None && x.label == label ==> first_label(
            nodes.push(x),
            label,
            j,
        ) == Some(nodes.len() as int),
    decreases nodes.len() - j,
{
    if j < nodes.len() {
        assert(nodes.push(x)[j] == nodes[j]);
        lemma_first_label_push(nodes, x, label, j + 1);
    } else {
        assert(nodes.push(x)[j] == x);
        assert(first_label(nodes.push(x), label, j + 1) is None);
    }
}

/// Replacing a node by one of the same label changes no first match.
proof fn lemma_first_label_update(nodes: Seq<TreeNodeView>, i: int, x: TreeNodeView, label: Seq<u8>, j: int)
    requires
        0 <= i < nodes.len(),
        x.label == nodes[i].label,
    ensures
        first_label(nodes.update(i, x), label, j) == first_label(nodes, label, j),
    decreases nodes.len() - j,
{
    if 0 <= j < nodes.len() {
        lemma_first_label_update(nodes, i, x, label, j + 1);
    }
}

/// Appending a node keeps every path that was present.
proof fn lemma_path_present_push(nodes: Seq<TreeNodeView>, x: TreeNodeView, parts: Seq<Seq<u8>>, d: int, name: Seq<u8>)
    requires
        path_present(nodes, parts, d, name),
    ensures
        path_present(nodes.push(x), parts, d, name),
{
    if d >= parts.len() {
        lemma_first_label_push(nodes, x, name, 0);
    } else {
        lemma_first_label_push(nodes, x, parts[d], 0);
        lemma_first_label_range(nodes, parts[d], 0);
        let i = first_label(nodes, parts[d], 0)->0;
        assert(nodes.push(x)[i] == nodes[i]);
    }
}

/// When the path of an entry is present, inserting it changes nothing.
proof fn lemma_insert_present(
    nodes: Seq<TreeNodeView>,
    parts: Seq<Seq<u8>>,
    d: int,
    e: TocEntryView,
    path: Seq<u8>,
    key: int,
)
    requires
        path_present(nodes, parts, d, e.file_name),
    ensures
        spec_insert(nodes, parts, d, e, path, key) == (nodes, key),
    decreases parts.len() - d,
{
    if d < parts.len() {
        lemma_first_label_range(nodes, parts[d], 0);
        let i = first_label(nodes, parts[d], 0)->0;
        lemma_insert_present(nodes[i].children, parts, d + 1, e, path, key);
        assert(with_children(nodes[i], nodes[i].children) == nodes[i]);
        assert(nodes.update(i, nodes[i]) =~= nodes);
    }
}

/// After an entry is inserted, its path is present.
proof fn lemma_insert_makes_present(
    nodes: Seq<TreeNodeView>,
    parts: Seq<Seq<u8>>,
    d: int,
    e: TocEntryView,
    path: Seq<u8>,
    key: int,
)
    ensures
        path_present(spec_insert(nodes, parts, d, e, path, key).0, parts, d, e.file_name),
    decreases parts.len() - d,
{
    if d >= parts.len() {
        if first_label(nodes, e.file_name, 0) is None {
            lemma_first_label_push(nodes, file_node(key, e, path), e.file_name, 0);
        }
    } else {
        match first_label(nodes, parts[d], 0) {
            Some(i) => {
                lemma_first_label_range(nodes, parts[d], 0);
                let (c, k) = spec_insert(nodes[i].children, parts, d + 1, e, path, key);
                lemma_insert_makes_present(nodes[i].children, parts, d + 1, e, path, key);
                let x = with_children(nodes[i], c);
                lemma_first_label_update(nodes, i, x, parts[d], 0);
                assert(nodes.update(i, x)[i] == x);
            },
            None => {
                let (c, k) = spec_insert(Seq::empty(), parts, d + 1, e, path, key + 1);
                lemma_insert_makes_present(Seq::empty(), parts, d + 1, e, path, key + 1);
                let x = folder_node(key, parts[d], path, c);
                lemma_first_label_push(nodes, x, parts[d], 0);
                assert(nodes.push(x)[nodes.len() as int] == x);
            },
        }
    }
}

/// Inserting an entry keeps every path that was present.
proof fn lemma_insert_keeps_present(
    nodes: Seq<TreeNodeView>,
    parts: Seq<Seq<u8>>,
    d: int,
    e: TocEntryView,
    path: Seq<u8>,
    key: int,
    other: Seq<Seq<u8>>,
    od: int,
    name: Seq<u8>,
)
    requires
        path_present(nodes, other, od, name),
    ensures
        path_present(spec_insert(nodes, parts, d, e, path, key).0, other, od, name),
    decreases parts.len() - d,
{
    if d >= parts.len() {
        if first_label(nodes, e.file_name, 0) is None {
            lemma_path_present_push(nodes, file_node(key, e, path), other, od, name);
        }
    } else {
        match first_label(nodes, parts[d], 0) {
            Some(i) => {
                lemma_first_label_range(nodes, parts[d], 0);
                let (c, k) = spec_insert(nodes[i].children, parts, d + 1, e, path, key);
                let x = with_children(nodes[i], c);
                let n2 = nodes.update(i, x);
                if od >= other.len() {
                    lemma_first_label_update(nodes, i, x, name, 0);
                } else {
                    lemma_first_label_update(nodes, i, x, other[od], 0);
                    lemma_first_label_range(nodes, other[od], 0);
                    let j = first_label(nodes, other[od], 0)->0;
                    if j == i {
                        lemma_insert_keeps_present(
                            nodes[i].children,
                            parts,
                            d + 1,
                            e,
                            path,
                            key,
                            other,
                            od + 1,
                            name,
                        );
                        assert(n2[i] == x);
                    } else {
                        assert(n2[j] == nodes[j]);
                    }
                }
            },
            None => {
                let (c, k) = spec_insert(Seq::empty(), parts, d + 1, e, path, key + 1);
                lemma_path_present_push(nodes, folder_node(key, parts[d], path, c), other, od, name);
            },
        }
    }
}

/// After the entries are added, every one of them is in the tree.
pub proof fn lemma_build_tree_covers(
    nodes: Seq<TreeNodeView>,
    entries: Seq<TocEntryView>,
    path: Seq<u8>,
    key: int,
    k: int,
)
    requires
        0 <= k < entries.len(),
    ensures
        entry_present(spec_build_tree(nodes, entries, path, key).0, entries[k]),
    decreases entries.len(),
{
    let (n1, k1) = spec_build_tree(nodes, entries.drop_last(), path, key);
    let last = entries.last();
    if k < entries.len() - 1 {
        lemma_build_tree_covers(nodes, entries.drop_last(), path, key, k);
        assert(entries.drop_last()[k] == entries[k]);
        lemma_insert_keeps_present(
            n1,
            split_slash(last.dir_name),
            0,
            last,
            path,
            k1,
            split_slash(entries[k].dir_name),
            0,
            entries[k].file_name,
        );
    } else {
        lemma_insert_makes_present(n1, split_slash(last.dir_name), 0, last, path, k1);
    }
}

/// When every entry is already in the tree, adding the entries changes
/// neither the tree nor the next key.
pub proof fn lemma_build_tree_nothing_new(
    nodes: Seq<TreeNodeView>,
    entries: Seq<TocEntryView>,
    path: Seq<u8>,
    key: int,
)
    requires
        forall|k: int| 0 <= k < entries.len() ==> #[trigger] entry_present(nodes, entries[k]),
    ensures
        spec_build_tree(nodes, entries, path, key) == (nodes, key),
    decreases entries.len(),
{
    if entries.len() > 0 {
        assert forall|k: int| 0 <= k < entries.drop_last().len() implies #[trigger] entry_present(
            nodes,
            entries.drop_last()[k],
        ) by {
            assert(entries.drop_last()[k] == entries[k]);
            assert(entry_present(nodes, entries[k]));
        }
        lemma_build_tree_nothing_new(nodes, entries.drop_last(), path, key);
        let last = entries.len() - 1;
        assert(entry_present(nodes, entries[last]));
        lemma_insert_present(nodes, split_slash(entries.last().dir_name), 0, entries.last(), path, key);
    }
}

/// Opening the same archive a second time leaves the tree and the next key
/// as the first time left them: no folder or file is added twice.
pub proof fn lemma_build_tree_idempotent(
    nodes: Seq<TreeNodeView>,
    entries: Seq<TocEntryView>,
    path: Seq<u8>,
    key: int,
)
    ensures
        ({
            let (n1, k1) = spec_build_tree(nodes, entries, path, key);
            spec_build_tree(n1, entries, path, k1) == (n1, k1)
        }),
{
    let (n1, k1) = spec_build_tree(nodes, entries, path, key);
    assert forall|k: int| 0 <= k < entries.len() implies #[trigger] entry_present(n1, entries[k]) by {
        lemma_build_tree_covers(nodes, entries, path, key, k);
    }
    lemma_build_tree_nothing_new(n1, entries, path, k1);
}

// ---------------------------------------------------------------------------
// The labels of the tree.
// ---------------------------------------------------------------------------

/// Whether no two nodes of the list share a label.
pub open spec fn labels_distinct(nodes: Seq<TreeNodeView>) -> bool {
    forall|a: int, b: int|
        0 <= a < nodes.len() && 0 <= b < nodes.len() && a != b ==> #[trigger] nodes[a].label
            != #[trigger] nodes[b].label
}

/// Whether no two nodes of any list of the forest (the top level or the
/// children of a node, at any depth) share a label.
pub open spec fn all_labels_distinct(nodes: Seq<TreeNodeView>) -> bool
    decreases nodes,
{
    &&& labels_distinct(nodes)
    &&& forall|i: int|
        0 <= i < nodes.len() ==> all_labels_distinct(#[trigger] nodes[i].children)
}

proof fn lemma_first_label_none(nodes: Seq<TreeNodeView>, label: Seq<u8>, j: int)
    requires
        0 <= j,
        first_label(nodes, label, j) is None,
    ensures
        forall|k: int| j <= k < nodes.len() ==> #[trigger] nodes[k].label != label,
    decreases nodes.len() - j,
{
    if j < nodes.len() {
        lemma_first_label_none(nodes, label, j + 1);
    }
}

proof fn lemma_push_labels_distinct(nodes: Seq<TreeNodeView>, x: TreeNodeView)
    requires
        all_labels_distinct(nodes),
        all_labels_distinct(x.children),
        first_label(nodes, x.label, 0) is None,
    ensures
        all_labels_distinct(nodes.push(x)),
{
    lemma_first_label_none(nodes, x.label, 0);
    let n2 = nodes.push(x);
    assert forall|a: int, b: int| 0 <= a < n2.len() && 0 <= b < n2.len() && a != b implies #[trigger] n2[a].label
        != #[trigger] n2[b].label by {
        if a < nodes.len() && b < nodes.len() {
            assert(n2[a] == nodes[a] && n2[b] == nodes[b]);
        } else if a == nodes.len() {
            assert(n2[b] == nodes[b]);
        } else {
            assert(n2[a] == nodes[a]);
        }
    }
    assert forall|i: int| 0 <= i < n2.len() implies all_labels_distinct(#[trigger] n2[i].children) by {
        if i < nodes.len() {
            assert(n2[i] == nodes[i]);
        }
    }
}

/// Inserting an entry keeps the labels of every list distinct.
proof fn lemma_insert_labels(
    nodes: Seq<TreeNodeView>,
    parts: Seq<Seq<u8>>,
    d: int,
    e: TocEntryView,
    path: Seq<u8>,
    key: int,
)
    requires
        all_labels_distinct(nodes),
    ensures
        all_labels_distinct(spec_insert(nodes, parts, d, e, path, key).0),
    decreases parts.len() - d,
{
    let empty = Seq::<TreeNodeView>::empty();
    assert(all_labels_distinct(empty));
    if d >= parts.len() {
        if first_label(nodes, e.file_name, 0) is None {
            let f = file_node(key, e, path);
            assert(f.children =~= empty);
            lemma_push_labels_distinct(nodes, f);
        }
    } else {
        match first_label(nodes, parts[d], 0) {
            Some(i) => {
                lemma_first_label_range(nodes, parts[d], 0);
                let (c, k) = spec_insert(nodes[i].children, parts, d + 1, e, path, key);
                lemma_insert_labels(nodes[i].children, parts, d + 1, e, path, key);
                let x = with_children(nodes[i], c);
                let n2 = nodes.update(i, x);
                assert forall|a: int, b: int| 0 <= a < n2.len() && 0 <= b < n2.len() && a != b implies #[trigger] n2[a].label
                    != #[trigger] n2[b].label by {
                    assert(n2[a].label == nodes[a].label && n2[b].label == nodes[b].label);
                }
                assert forall|j: int| 0 <= j < n2.len() implies all_labels_distinct(#[trigger] n2[j].children) by {
                    if j != i {
                        assert(n2[j] == nodes[j]);
                    }
                }
            },
            None => {
                let (c, k) = spec_insert(empty, parts, d + 1, e, path, key + 1);
                lemma_insert_labels(empty, parts, d + 1, e, path, key + 1);
                lemma_push_labels_distinct(nodes, folder_node(key, parts[d], path, c));
            },
        }
    }
}

/// Labels stay unique: when no two nodes of any list of the tree share a
/// label, adding entries keeps it so; an entry whose folder or file name is
/// already in a list reuses (or keeps) that node instead of adding another.
pub proof fn lemma_build_tree_labels_distinct(
    nodes: Seq<TreeNodeView>,
    entries: Seq<TocEntryView>,
    path: Seq<u8>,
    key: int,
)
    requires
        all_labels_distinct(nodes),
    ensures
        all_labels_distinct(spec_build_tree(nodes, entries, path, key).0),
    decreases entries.len(),
{
    if entries.len() > 0 {
        lemma_build_tree_labels_distinct(nodes, entries.drop_last(), path, key);
        let (n1, k1) = spec_build_tree(nodes, entries.drop_last(), path, key);
        lemma_insert_labels(n1, split_slash(entries.last().dir_name), 0, entries.last(), path, k1);
    }
}

// ---------------------------------------------------------------------------
// The keys of the tree.
// ---------------------------------------------------------------------------

/// The keys of a forest, each node before its children.
pub open spec fn tree_keys(nodes: Seq<TreeNodeView>) -> Seq<Seq<u8>>
    decreases nodes, 1nat,
{
    if nodes.len() == 0 {
        Seq::empty()
    } else {
        tree_keys(nodes.drop_last()) + node_keys(nodes.last())
    }
}

/// The keys of a node and of everything below it.
pub open spec fn node_keys(n: TreeNodeView) -> Seq<Seq<u8>>
    decreases n, 0nat,
{
    seq![n.key] + tree_keys(n.children)
}

/// Whether `x` is the key that the tree builder gives to a number `k` or above.
pub open spec fn fresh_from(x: Seq<u8>, k: int) -> bool {
    x == decimal(digits_value(x)) && digits_value(x) >= k
}

/// Whether no key in `keys` is one that a number `k` or above would get.
pub open spec fn keys_below(keys: Seq<Seq<u8>>, k: int) -> bool {
    forall|i: int| 0 <= i < keys.len() ==> !fresh_from(#[trigger] keys[i], k)
}

/// Whether every key in `keys` was in `old` or is the key of a number in `lo..hi`.
pub open spec fn keys_within(keys: Seq<Seq<u8>>, old: Seq<Seq<u8>>, lo: int, hi: int) -> bool {
    forall|i: int|
        0 <= i < keys.len() ==> old.contains(#[trigger] keys[i]) || (fresh_from(keys[i], lo)
            && digits_value(keys[i]) < hi)
}

proof fn lemma_no_dups_concat(a: Seq<Seq<u8>>, b: Seq<Seq<u8>>)
    ensures
        (a + b).no_duplicates() <==> (a.no_duplicates() && b.no_duplicates() && forall|i: int, j: int|
            0 <= i < a.len() && 0 <= j < b.len() ==> #[trigger] a[i] != #[trigger] b[j]),
{
    let c = a + b;
    if c.no_duplicates() {
        assert forall|i: int, j: int| 0 <= i < a.len() && 0 <= j < a.len() && i != j implies a[i]
            != a[j] by {
            assert(c[i] == a[i] && c[j] == a[j]);
        }
        assert forall|i: int, j: int| 0 <= i < b.len() && 0 <= j < b.len() && i != j implies b[i]
            != b[j] by {
            assert(c[a.len() + i] == b[i] && c[a.len() + j] == b[j]);
        }
        assert forall|i: int, j: int| 0 <= i < a.len() && 0 <= j < b.len() implies #[trigger] a[i]
            != #[trigger] b[j] by {
            assert(c[i] == a[i] && c[a.len() + j] == b[j]);
        }
    }
    if a.no_duplicates() && b.no_duplicates() && (forall|i: int, j: int|
        0 <= i < a.len() && 0 <= j < b.len() ==> #[trigger] a[i] != #[trigger] b[j]) {
        assert forall|i: int, j: int| 0 <= i < c.len() && 0 <= j < c.len() && i != j implies c[i]
            != c[j] by {
            if i < a.len() && j < a.len() {
            } else if i >= a.len() && j >= a.len() {
                assert(c[i] == b[i - a.len()] && c[j] == b[j - a.len()]);
            } else if i < a.len() {
                assert(c[j] == b[j - a.len()]);
                assert(a[i] != b[j - a.len()]);
            } else {
                assert(c[i] == b[i - a.len()]);
                assert(a[j] != b[i - a.len()]);
            }
        }
    }
}

proof fn lemma_tree_keys_concat(a: Seq<TreeNodeView>, b: Seq<TreeNodeView>)
    ensures
        tree_keys(a + b) == tree_keys(a) + tree_keys(b),
    decreases b.len(),
{
    if b.len() > 0 {
        lemma_tree_keys_concat(a, b.drop_last());
        assert((a + b).drop_last() =~= a + b.drop_last());
        assert((a + b).last() == b.last());
        assert(tree_keys(a + b) =~= tree_keys(a) + tree_keys(b));
    } else {
        assert(a + b =~= a);
        assert(tree_keys(a) + tree_keys(b) =~= tree_keys(a));
    }
}

proof fn lemma_tree_keys_update(nodes: Seq<TreeNodeView>, i: int, x: TreeNodeView)
    requires
        0 <= i < nodes.len(),
    ensures
        tree_keys(nodes.update(i, x)) == tree_keys(nodes.take(i)) + node_keys(x) + tree_keys(
            nodes.skip(i + 1),
        ),
        tree_keys(nodes) == tree_keys(nodes.take(i)) + node_keys(nodes[i]) + tree_keys(
            nodes.skip(i + 1),
        ),
{
    let a = nodes.take(i);
    let b = nodes.skip(i + 1);
    assert(nodes.update(i, x) =~= a.push(x) + b);
    assert(nodes =~= a.push(nodes[i]) + b);
    lemma_tree_keys_concat(a.push(x), b);
    lemma_tree_keys_concat(a.push(nodes[i]), b);
    assert(a.push(x).drop_last() =~= a);
    assert(a.push(nodes[i]).drop_last() =~= a);
}

/// Inserting an entry keeps the keys distinct and below the next key, and
/// every key it brings is the key of a number from the old next key on.
proof fn lemma_insert_keys(
    nodes: Seq<TreeNodeView>,
    parts: Seq<Seq<u8>>,
    d: int,
    e: TocEntryView,
    path: Seq<u8>,
    key: int,
)
    requires
        key >= 0,
        tree_keys(nodes).no_duplicates(),
        keys_below(tree_keys(nodes), key),
    ensures
        ({
            let (n2, k2) = spec_insert(nodes, parts, d, e, path, key);
            &&& tree_keys(n2).no_duplicates()
            &&& keys_below(tree_keys(n2), k2)
            &&& keys_within(tree_keys(n2), tree_keys(nodes), key, k2)
        }),
    decreases parts.len() - d,
{
    let (n2, k2) = spec_insert(nodes, parts, d, e, path, key);
    lemma_insert_key_grows(nodes, parts, d, e, path, key);
    let old_keys = tree_keys(nodes);
    if d >= parts.len() {
        if first_label(nodes, e.file_name, 0) is None {
            let f = file_node(key, e, path);
            lemma_decimal_digits(key as nat);
            assert(f.children =~= Seq::<TreeNodeView>::empty());
            assert(node_keys(f) =~= seq![decimal(key as nat)]);
            assert(nodes.push(f).drop_last() =~= nodes);
            let new_keys = tree_keys(nodes.push(f));
            assert(new_keys =~= old_keys + seq![decimal(key as nat)]);
            assert(fresh_from(decimal(key as nat), key));
            lemma_no_dups_concat(old_keys, seq![decimal(key as nat)]);
            assert forall|i: int| 0 <= i < new_keys.len() implies !fresh_from(
                #[trigger] new_keys[i],
                k2,
            ) by {
                if i < old_keys.len() {
                    assert(new_keys[i] == old_keys[i]);
                }
            }
            assert forall|i: int| 0 <= i < new_keys.len() implies old_keys.contains(
                #[trigger] new_keys[i],
            ) || (fresh_from(new_keys[i], key) && digits_value(new_keys[i]) < k2) by {
                if i < old_keys.len() {
                    assert(new_keys[i] == old_keys[i]);
                }
            }
        } else {
            assert forall|i: int| 0 <= i < old_keys.len() implies old_keys.contains(
                #[trigger] old_keys[i],
            ) || (fresh_from(old_keys[i], key) && digits_value(old_keys[i]) < k2) by {}
        }
    } else {
        match first_label(nodes, parts[d], 0) {
            Some(i) => {
                lemma_first_label_range(nodes, parts[d], 0);
                let n = nodes[i];
                let c0 = n.children;
                let (c, k) = spec_insert(c0, parts, d + 1, e, path, key);
                let x = with_children(n, c);
                lemma_tree_keys_update(nodes, i, x);
                let a = tree_keys(nodes.take(i));
                let b = tree_keys(nodes.skip(i + 1));
                let kc0 = tree_keys(c0);
                let kc = tree_keys(c);
                assert(node_keys(n) == seq![n.key] + kc0);
                assert(node_keys(x) == seq![n.key] + kc);
                let head = a + seq![n.key];
                assert(old_keys =~= head + kc0 + b);
                assert(tree_keys(n2) =~= head + kc + b);
                // What the old keys say of their parts.
                lemma_no_dups_concat(head + kc0, b);
                lemma_no_dups_concat(head, kc0);
                assert forall|j: int| 0 <= j < kc0.len() implies !fresh_from(#[trigger] kc0[j], key) by {
                    assert(old_keys[head.len() + j] == kc0[j]);
                }
                lemma_insert_keys(c0, parts, d + 1, e, path, key);
                // The new keys.
                let new_keys = tree_keys(n2);
                assert forall|p: int, q: int| 0 <= p < head.len() && 0 <= q < kc.len() implies #[trigger] head[p]
                    != #[trigger] kc[q] by {
                    assert(old_keys[p] == head[p]);
                    if !kc0.contains(kc[q]) {
                        assert(fresh_from(kc[q], key));
                        assert(!fresh_from(old_keys[p], key));
                    } else {
                        let r = choose|r: int| 0 <= r < kc0.len() && kc0[r] == kc[q];
                        assert(head[p] != kc0[r]);
                    }
                }
                lemma_no_dups_concat(head, kc);
                assert forall|p: int, q: int| 0 <= p < (head + kc).len() && 0 <= q < b.len() implies #[trigger] (
                head + kc)[p] != #[trigger] b[q] by {
                    assert(old_keys[head.len() + kc0.len() + q] == b[q]);
                    if p < head.len() {
                        assert((head + kc)[p] == head[p]);
                        assert((head + kc0)[p] == head[p]);
                    } else {
                        let y = kc[p - head.len()];
                        assert((head + kc)[p] == y);
                        if !kc0.contains(y) {
                            assert(fresh_from(y, key));
                            assert(!fresh_from(old_keys[head.len() + kc0.len() + q], key));
                        } else {
                            let r = choose|r: int| 0 <= r < kc0.len() && kc0[r] == y;
                            assert((head + kc0)[head.len() + r] == y);
                        }
                    }
                }
                lemma_no_dups_concat(head + kc, b);
                assert forall|j: int| 0 <= j < new_keys.len() implies !fresh_from(
                    #[trigger] new_keys[j],
                    k2,
                ) by {
                    if j < head.len() {
                        assert(new_keys[j] == old_keys[j]);
                    } else if j < head.len() + kc.len() {
                        assert(new_keys[j] == kc[j - head.len()]);
                    } else {
                        assert(new_keys[j] == b[j - head.len() - kc.len()]);
                        assert(old_keys[j - kc.len() + kc0.len()] == b[j - head.len() - kc.len()]);
                    }
                }
                assert forall|j: int| 0 <= j < new_keys.len() implies old_keys.contains(
                    #[trigger] new_keys[j],
                ) || (fresh_from(new_keys[j], key) && digits_value(new_keys[j]) < k2) by {
                    if j < head.len() {
                        assert(new_keys[j] == old_keys[j]);
                    } else if j < head.len() + kc.len() {
                        let y = kc[j - head.len()];
                        assert(new_keys[j] == y);
                        if kc0.contains(y) {
                            let r = choose|r: int| 0 <= r < kc0.len() && kc0[r] == y;
                            assert(old_keys[head.len() + r] == y);
                        }
                    } else {
                        assert(old_keys[j - kc.len() + kc0.len()] == new_keys[j]);
                    }
                }
            },
            None => {
                let (c, k) = spec_insert(Seq::empty(), parts, d + 1, e, path, key + 1);
                let f = folder_node(key, parts[d], path, c);
                let kc = tree_keys(c);
                assert(tree_keys(Seq::<TreeNodeView>::empty()) =~= Seq::<Seq<u8>>::empty());
                lemma_insert_keys(Seq::empty(), parts, d + 1, e, path, key + 1);
                lemma_insert_key_grows(Seq::empty(), parts, d + 1, e, path, key + 1);
                lemma_decimal_digits(key as nat);
                let dk = decimal(key as nat);
                assert(nodes.push(f).drop_last() =~= nodes);
                let new_keys = tree_keys(nodes.push(f));
                assert(node_keys(f) == seq![dk] + kc);
                assert(new_keys =~= old_keys + (seq![dk] + kc));
                assert forall|q: int| 0 <= q < kc.len() implies fresh_from(#[trigger] kc[q], key + 1)
                    && digits_value(kc[q]) < k2 by {
                    assert(!Seq::<Seq<u8>>::empty().contains(kc[q]));
                }
                assert forall|p: int, q: int| 0 <= p < seq![dk].len() && 0 <= q < kc.len() implies #[trigger] seq![dk][p]
                    != #[trigger] kc[q] by {
                    assert(seq![dk][p] == dk);
                    assert(digits_value(kc[q]) >= key + 1);
                }
                lemma_no_dups_concat(seq![dk], kc);
                assert forall|p: int, q: int| 0 <= p < old_keys.len() && 0 <= q < (seq![dk] + kc).len() implies #[trigger] old_keys[p]
                    != #[trigger] (seq![dk] + kc)[q] by {
                    assert(!fresh_from(old_keys[p], key));
                    if q == 0 {
                        assert((seq![dk] + kc)[q] == dk);
                        assert(fresh_from(dk, key));
                    } else {
                        assert((seq![dk] + kc)[q] == kc[q - 1]);
                    }
                }
                lemma_no_dups_concat(old_keys, seq![dk] + kc);
                assert forall|j: int| 0 <= j < new_keys.len() implies !fresh_from(
                    #[trigger] new_keys[j],
                    k2,
                ) by {
                    if j < old_keys.len() {
                        assert(new_keys[j] == old_keys[j]);
                    } else if j == old_keys.len() {
                        assert(new_keys[j] == dk);
                    } else {
                        assert(new_keys[j] == kc[j - old_keys.len() - 1]);
                    }
                }
                assert forall|j: int| 0 <= j < new_keys.len() implies old_keys.contains(
                    #[trigger] new_keys[j],
                ) || (fresh_from(new_keys[j], key) && digits_value(new_keys[j]) < k2) by {
                    if j < old_keys.len() {
                        assert(new_keys[j] == old_keys[j]);
                    } else if j == old_keys.len() {
                        assert(new_keys[j] == dk);
                    } else {
                        assert(new_keys[j] == kc[j - old_keys.len() - 1]);
                    }
                }
            },
        }
    }
}

/// Keys stay unique: when the keys of the tree are distinct and none is the
/// key of a number from the next key on, adding entries keeps both true, with
/// the new next key.
pub proof fn lemma_build_tree_keys_unique(
    nodes: Seq<TreeNodeView>,
    entries: Seq<TocEntryView>,
    path: Seq<u8>,
    key: int,
)
    requires
        key >= 0,
        tree_keys(nodes).no_duplicates(),
        keys_below(tree_keys(nodes), key),
    ensures
        ({
            let (n1, k1) = spec_build_tree(nodes, entries, path, key);
            tree_keys(n1).no_duplicates() && keys_below(tree_keys(n1), k1) && k1 >= key
        }),
    decreases entries.len(),
{
    if entries.len() > 0 {
        lemma_build_tree_keys_unique(nodes, entries.drop_last(), path, key);
        let (n1, k1) = spec_build_tree(nodes, entries.drop_last(), path, key);
        lemma_insert_keys(n1, split_slash(entries.last().dir_name), 0, entries.last(), path, k1);
        lemma_insert_key_grows(n1, split_slash(entries.last().dir_name), 0, entries.last(), path, k1);
    }
}

/// Whether every key in `keys` reads as a number below `k`.
pub open spec fn keys_read_below(keys: Seq<Seq<u8>>, k: int) -> bool {
    forall|i: int|
        0 <= i < keys.len() ==> (spec_parse_usize(#[trigger] keys[i]) matches Some(m) && m < k)
}

proof fn lemma_next_key_bound(nodes: Seq<TreeNodeView>, max: nat)
    ensures
        spec_next_key(nodes, max) matches Ok(r) ==> r >= max && keys_read_below(tree_keys(nodes), r as int),
    decreases nodes, 1nat,
{
    if nodes.len() > 0 {
        lemma_next_key_bound(nodes.drop_last(), max);
        if let Ok(m1) = spec_next_key(nodes.drop_last(), max) {
            lemma_next_key_node_bound(nodes.last(), m1);
            if let Ok(r) = spec_next_key(nodes, max) {
                let a = tree_keys(nodes.drop_last());
                let b = node_keys(nodes.last());
                assert(tree_keys(nodes) == a + b);
                assert forall|i: int| 0 <= i < (a + b).len() implies (spec_parse_usize(
                    #[trigger] (a + b)[i],
                ) matches Some(m) && m < r) by {
                    if i < a.len() {
                        assert((a + b)[i] == a[i]);
                    } else {
                        assert((a + b)[i] == b[i - a.len()]);
                    }
                }
            }
        }
    }
}

proof fn lemma_next_key_node_bound(n: TreeNodeView, max: nat)
    ensures
        spec_next_key_node(n, max) matches Ok(r) ==> r >= max && keys_read_below(node_keys(n), r as int),
    decreases n, 0nat,
{
    lemma_next_key_bound(n.children, 0);
    if let Ok(r) = spec_next_key_node(n, max) {
        let kc = tree_keys(n.children);
        let all = seq![n.key] + kc;
        assert(node_keys(n) == all);
        assert forall|i: int| 0 <= i < all.len() implies (spec_parse_usize(#[trigger] all[i]) matches Some(
            m,
        ) && m < r) by {
            if i > 0 {
                assert(all[i] == kc[i - 1]);
            }
        }
    }
}

/// The key that the scan of a tree gives is above every key in the tree: a
/// tree builder started from it gives no node a key that is already there.
pub proof fn lemma_next_key_fresh(nodes: Seq<TreeNodeView>)
    ensures
        spec_next_key(nodes, 0) matches Ok(k) ==> keys_below(tree_keys(nodes), k as int),
{
    lemma_next_key_bound(nodes, 0);
    if let Ok(k) = spec_next_key(nodes, 0) {
        let keys = tree_keys(nodes);
        assert forall|i: int| 0 <= i < keys.len() implies !fresh_from(#[trigger] keys[i], k as int) by {
            let x = keys[i];
            if fresh_from(x, k as int) {
                lemma_decimal_digits(digits_value(x));
                assert(x[0] != 43);
            }
        }
    }
}

// ---------------------------------------------------------------------------
// The table of a CPK archive.
// ---------------------------------------------------------------------------

/// The table line of an entry (its offset cut to 32 bits).
pub open spec fn table_row_of(e: TocEntryView, path: Seq<u8>) -> DataTableRowView {
    DataTableRowView {
        dir_name: e.dir_name,
        file_name: e.file_name,
        file_size: e.file_size,
        extract_size: e.extract_size,
        file_offset: e.file_offset as u32,
        path,
    }
}

/// The table after the lines of the entries are appended, each unless an
/// equal line (in all six fields) is already there.
pub open spec fn spec_build_table(
    rows: Seq<DataTableRowView>,
    entries: Seq<TocEntryView>,
    path: Seq<u8>,
) -> Seq<DataTableRowView>
    decreases entries.len(),
{
    if entries.len() == 0 {
        rows
    } else {
        let r1 = spec_build_table(rows, entries.drop_last(), path);
        let row = table_row_of(entries.last(), path);
        if r1.contains(row) {
            r1
        } else {
            r1.push(row)
        }
    }
}

/// Appends the table lines of the entries of one archive, skipping lines
/// that are already present.
pub fn build_table_cpk(rows: &mut Vec<DataTableRow>, entries: &Vec<TocEntry>, cpk_path: &Vec<u8>)
    ensures
        final(rows).deep_view() == spec_build_table(
            old(rows).deep_view(),
            entries.deep_view(),
            cpk_path@,
        ),
{
    let ghost ev = entries.deep_view();
    let n = entries.len();
    let mut i: usize = 0;
    while i < n
        invariant
            0 <= i <= n,
            n == entries@.len(),
            ev == entries.deep_view(),
            rows.deep_view() == spec_build_table(old(rows).deep_view(), ev.take(i as int), cpk_path@),
        decreases n - i,
    {
        let entry = &entries[i];
        assert(ev[i as int] == entry.deep_view());
        assert(ev.take(i + 1).drop_last() =~= ev.take(i as int));
        #[verifier::truncate]
        let offset32 = entry.file_offset as u32;
        let row = DataTableRow {
            dir_name: entry.dir_name.clone(),
            file_name: entry.file_name.clone(),
            file_size: entry.file_size,
            extract_size: entry.extract_size,
            file_offset: offset32,
            path: cpk_path.clone(),
        };
        let ghost rv = row.deep_view();
        assert(rv == table_row_of(ev[i as int], cpk_path@));
        let mut present = false;
        let m = rows.len();
        let mut j: usize = 0;
        while j < m
            invariant
                0 <= j <= m,
                m == rows@.len(),
                rv == row.deep_view(),
                present == exists|t: int| 0 <= t < j && rows.deep_view()[t] == rv,
            decreases m - j,
        {
            let x = &rows[j];
            assert(rows.deep_view()[j as int] == x.deep_view());
            if bytes_eq(&x.dir_name, &row.dir_name) && bytes_eq(&x.file_name, &row.file_name)
                && x.file_offset == row.file_offset && x.file_size == row.file_size
                && x.extract_size == row.extract_size && bytes_eq(&x.path, &row.path) {
                present = true;
            }
            j = j + 1;
        }
        assert(present == rows.deep_view().contains(rv));
        if !present {
            let ghost before = rows.deep_view();
            rows.push(row);
            assert(rows.deep_view() =~= before.push(rv));
        }
        i = i + 1;
    }
    assert(ev.take(n as int) =~= ev);
}

/// Lines already in the table stay in it.
pub proof fn lemma_build_table_keeps(
    rows: Seq<DataTableRowView>,
    entries: Seq<TocEntryView>,
    path: Seq<u8>,
    r: DataTableRowView,
)
    requires
        rows.contains(r),
    ensures
        spec_build_table(rows, entries, path).contains(r),
    decreases entries.len(),
{
    if entries.len() > 0 {
        lemma_build_table_keeps(rows, entries.drop_last(), path, r);
        let r1 = spec_build_table(rows, entries.drop_last(), path);
        let row = table_row_of(entries.last(), path);
        if !r1.contains(row) {
            let t = choose|t: int| 0 <= t < r1.len() && r1[t] == r;
            assert(r1.push(row)[t] == r);
        }
    }
}

/// After the entries are added, the line of every entry is in the table.
pub proof fn lemma_build_table_covers(
    rows: Seq<DataTableRowView>,
    entries: Seq<TocEntryView>,
    path: Seq<u8>,
    k: int,
)
    requires
        0 <= k < entries.len(),
    ensures
        spec_build_table(rows, entries, path).contains(table_row_of(entries[k], path)),
    decreases entries.len(),
{
    let r1 = spec_build_table(rows, entries.drop_last(), path);
    let row = table_row_of(entries.last(), path);
    if k < entries.len() - 1 {
        lemma_build_table_covers(rows, entries.drop_last(), path, k);
        assert(entries.drop_last()[k] == entries[k]);
        let target = table_row_of(entries[k], path);
        if !r1.contains(row) {
            let t = choose|t: int| 0 <= t < r1.len() && r1[t] == target;
            assert(r1.push(row)[t] == target);
        }
    } else {
        if !r1.contains(row) {
            assert(r1.push(row)[r1.len() as int] == row);
        }
    }
}

/// After the entries are added, the table has, for each of them, a line with
/// its directory and file names, its sizes, its offset cut to the low 32
/// bits, and the archive's path.
pub proof fn lemma_build_table_lines(
    rows: Seq<DataTableRowView>,
    entries: Seq<TocEntryView>,
    path: Seq<u8>,
    k: int,
)
    requires
        0 <= k < entries.len(),
    ensures
        exists|j: int|
            0 <= j < spec_build_table(rows, entries, path).len() && {
                let r = #[trigger] spec_build_table(rows, entries, path)[j];
                &&& r.dir_name == entries[k].dir_name
                &&& r.file_name == entries[k].file_name
                &&& r.file_size == entries[k].file_size
                &&& r.extract_size == entries[k].extract_size
                &&& r.file_offset == entries[k].file_offset % 0x1_0000_0000
                &&& r.path == path
            },
{
    lemma_build_table_covers(rows, entries, path, k);
    let t = spec_build_table(rows, entries, path);
    let row = table_row_of(entries[k], path);
    let j = choose|j: int| 0 <= j < t.len() && t[j] == row;
    let o = entries[k].file_offset;
    assert(o as u32 == o % 0x1_0000_0000) by (bit_vector);
    assert(t[j].dir_name == entries[k].dir_name);
}

/// When the line of every entry is already in the table, adding the entries
/// changes nothing.
pub proof fn lemma_build_table_nothing_new(
    rows: Seq<DataTableRowView>,
    entries: Seq<TocEntryView>,
    path: Seq<u8>,
)
    requires
        forall|k: int| 0 <= k < entries.len() ==> rows.contains(table_row_of(entries[k], path)),
    ensures
        spec_build_table(rows, entries, path) == rows,
    decreases entries.len(),
{
    if entries.len() > 0 {
        assert forall|k: int| 0 <= k < entries.drop_last().len() implies rows.contains(
            table_row_of(entries.drop_last()[k], path),
        ) by {
            assert(entries.drop_last()[k] == entries[k]);
        }
        lemma_build_table_nothing_new(rows, entries.drop_last(), path);
        assert(rows.contains(table_row_of(entries[entries.len() - 1], path)));
    }
}

/// Adding the same archive's entries a second time leaves the table as the
/// first time left it: no line is ever added twice.
pub proof fn lemma_build_table_idempotent(
    rows: Seq<DataTableRowView>,
    entries: Seq<TocEntryView>,
    path: Seq<u8>,
)
    ensures
        spec_build_table(spec_build_table(rows, entries, path), entries, path) == spec_build_table(
            rows,
            entries,
            path,
        ),
{
    let once = spec_build_table(rows, entries, path);
    assert forall|k: int| 0 <= k < entries.len() implies once.contains(
        table_row_of(entries[k], path),
    ) by {
        lemma_build_table_covers(rows, entries, path, k);
    }
    lemma_build_table_nothing_new(once, entries, path);
}

/// A table without repeated lines keeps none after entries are added.
pub proof fn lemma_build_table_no_duplicates(
    rows: Seq<DataTableRowView>,
    entries: Seq<TocEntryView>,
    path: Seq<u8>,
)
    requires
        rows.no_duplicates(),
    ensures
        spec_build_table(rows, entries, path).no_duplicates(),
    decreases entries.len(),
{
    if entries.len() > 0 {
        lemma_build_table_no_duplicates(rows, entries.drop_last(), path);
        let r1 = spec_build_table(rows, entries.drop_last(), path);
        let row = table_row_of(entries.last(), path);
        if !r1.contains(row) {
            let r2 = r1.push(row);
            assert forall|a: int, b: int| 0 <= a < r2.len() && 0 <= b < r2.len() && a != b implies r2[a]
                != r2[b] by {
                if a < r1.len() && b < r1.len() {
                } else if a == r1.len() {
                    assert(r1[b] == r2[b]);
                } else {
                    assert(r1[a] == r2[a]);
                }
            }
        }
    }
}

// ---------------------------------------------------------------------------
// Opening a CPK archive and extracting its files.
// ---------------------------------------------------------------------------

/// The payload of the packet at `p`, with the obfuscation removed when its
/// mode word is zero.
pub open spec fn decrypted_payload(b: Seq<u8>, p: int) -> Seq<u8> {
    let raw = take_bytes(b, p + 16, le_u64(b, p + 8));
    if le_u32(b, p + 4) == 0 {
        apply_key_stream(raw)
    } else {
        raw
    }
}

/// The table of contents of a CPK archive: the header packet at the start
/// holds a table whose first row gives `TocOffset` (and `TocSize`); the
/// packet at that offset holds the table of contents.
pub open spec fn spec_open_cpk(b: Seq<u8>) -> Result<(u64, UTFTableView), FormatError> {
    if !packet_fits(b, 0) {
        Err(FormatError::UnexpectedEof)
    } else {
        match spec_read_table(decrypted_payload(b, 0)) {
            Err(e) => Err(e),
            Ok(h) => if h.rows.len() == 0 {
                Err(FormatError::MissingField)
            } else {
                match (
                    spec_field(h.column_instances, h.rows[0], "TocOffset".spec_bytes()),
                    spec_field(h.column_instances, h.rows[0], "TocSize".spec_bytes()),
                ) {
                    (Some(Some(RowValue::UInt64(toc))), Some(Some(RowValue::UInt64(_)))) => if !packet_fits(
                        b,
                        toc as int,
                    ) {
                        Err(FormatError::UnexpectedEof)
                    } else {
                        match spec_read_table(decrypted_payload(b, toc as int)) {
                            Err(e) => Err(e),
                            Ok(t) => Ok((toc, t)),
                        }
                    },
                    _ => Err(FormatError::MissingField),
                }
            },
        }
    }
}

/// Reads a packet at the cursor, removes its obfuscation and reads the table it holds.
fn read_packet_table(file: &mut ByteCursor) -> (r: Result<UTFPacket, FormatError>)
    ensures
        final(file).data@ == old(file).data@,
        ({
            let b = old(file).data@;
            let p = old(file).pos as int;
            match r {
                Ok(t) => packet_fits(b, p) && spec_read_table(decrypted_payload(b, p)) == Ok::<
                    UTFTableView,
                    FormatError,
                >(t.deep_view()),
                Err(e) => if !packet_fits(b, p) {
                    e == FormatError::UnexpectedEof
                } else {
                    spec_read_table(decrypted_payload(b, p)) == Err::<UTFTableView, FormatError>(e)
                },
            }
        }),
{
    let mut packet = match Packet::build(file) {
        Ok(pk) => pk,
        Err(e) => return Err(e),
    };
    packet.decrypt();
    read_table(packet.packet_data.as_slice())
}

/// Whether the archive starts with a header packet whose table reads and
/// whose first row holds 64-bit `TocOffset` and `TocSize` cells.
pub open spec fn cpk_header_ok(b: Seq<u8>) -> bool {
    &&& packet_fits(b, 0)
    &&& spec_read_table(decrypted_payload(b, 0)) matches Ok(h)
    &&& h.rows.len() > 0
    &&& spec_field(h.column_instances, h.rows[0], "TocOffset".spec_bytes()) matches Some(
        Some(RowValue::UInt64(_)),
    )
    &&& spec_field(h.column_instances, h.rows[0], "TocSize".spec_bytes()) matches Some(
        Some(RowValue::UInt64(_)),
    )
}

/// Checks that the archive in `data` starts with a header that `open_cpk` accepts.
pub fn has_cpk_header(data: &[u8]) -> (r: bool)
    ensures
        r == cpk_header_ok(data@),
{
    let mut file = ByteCursor::new(data);
    let header = match read_packet_table(&mut file) {
        Ok(t) => t,
        Err(_) => return false,
    };
    if header.UTFRowsData.len() == 0 {
        return false;
    }
    let offset_ok = match field(&header, 0, &str_bytes("TocOffset")) {
        Some(Some(RowData::UInt64(_))) => true,
        _ => false,
    };
    let size_ok = match field(&header, 0, &str_bytes("TocSize")) {
        Some(Some(RowData::UInt64(_))) => true,
        _ => false,
    };
    offset_ok && size_ok
}

/// Opens a CPK archive held in `data`, whose header (see `cpk_header_ok`)
/// names the table of contents: gives the offset of the table of contents
/// and the table itself.
pub fn open_cpk(data: &[u8]) -> (r: Result<(u64, UTFPacket), FormatError>)
    requires
        cpk_header_ok(data@),
    ensures
        match r {
            Ok((toc, t)) => spec_open_cpk(data@) == Ok::<(u64, UTFTableView), FormatError>(
                (toc, t.deep_view()),
            ),
            Err(e) => spec_open_cpk(data@) == Err::<(u64, UTFTableView), FormatError>(e),
        },
{
    let mut file = ByteCursor::new(data);
    let cpk_packet = match read_packet_table(&mut file) {
        Ok(t) => t,
        Err(e) => return Err(e),
    };
    if cpk_packet.UTFRowsData.len() == 0 {
        return Err(FormatError::MissingField);
    }
    let toc_offset = match field(&cpk_packet, 0, &str_bytes("TocOffset")) {
        Some(Some(RowData::UInt64(v))) => *v,
        _ => return Err(FormatError::MissingField),
    };
    match field(&cpk_packet, 0, &str_bytes("TocSize")) {
        Some(Some(RowData::UInt64(_))) => {},
        _ => return Err(FormatError::MissingField),
    }
    file.seek_to(toc_offset);
    let toc_packet = match read_packet_table(&mut file) {
        Ok(t) => t,
        Err(e) => return Err(e),
    };
    Ok((toc_offset, toc_packet))
}

/// What a CRILAYLA-compressed file decompresses to.
pub open spec fn spec_crilayla_file(d: Seq<u8>) -> Result<Seq<u8>, FormatError> {
    if !crilayla_fits(d, 0) {
        Err(FormatError::UnexpectedEof)
    } else {
        let cs = le_u32(d, 12);
        spec_decompress(
            take_bytes(d, 16, cs),
            d.subrange(16 + cs, 16 + cs + 256),
            Seq::empty(),
            le_u32(d, 8) as u32,
        )
    }
}

/// The bytes of a file of a CPK archive: read at the table-of-contents offset
/// plus the node's offset; when asked to, and when the stored size differs
/// from the extracted size, decompressed.
pub open spec fn spec_extract_cpk(b: Seq<u8>, toc_offset: u64, t: NodeType, check: bool) -> Result<
    Seq<u8>,
    FormatError,
> {
    let (fo, size, extract) = match t {
        NodeType::File { file_offset, file_size, extract_size } => (
            file_offset as int,
            file_size as int,
            extract_size as int,
        ),
        NodeType::Folder => (0, 0, 0),
    };
    if toc_offset + fo > u64::MAX {
        Err(FormatError::Overflow)
    } else if !can_take(b, toc_offset + fo, size) {
        Err(FormatError::UnexpectedEof)
    } else {
        let d = take_bytes(b, toc_offset + fo, size);
        if check && size != extract {
            spec_crilayla_file(d)
        } else {
            Ok(d)
        }
    }
}

/// Extracts a file of a CPK archive held in `data`.
pub fn extract_cpk(data: &[u8], toc_offset: u64, file_node: &TreeNode, pac_decompress_check: bool) -> (r:
    Result<Vec<u8>, FormatError>)
    ensures
        match r {
            Ok(v) => spec_extract_cpk(data@, toc_offset, file_node.node_type, pac_decompress_check)
                == Ok::<Seq<u8>, FormatError>(v@),
            Err(e) => spec_extract_cpk(data@, toc_offset, file_node.node_type, pac_decompress_check)
                == Err::<Seq<u8>, FormatError>(e),
        },
{
    let file_offset = file_node.get_file_offset();
    let file_size = file_node.get_file_size();
    let extract_size = file_node.get_extract_size();
    let start = match toc_offset.checked_add(file_offset) {
        Some(s) => s,
        None => return Err(FormatError::Overflow),
    };
    let mut file = ByteCursor::at(data, start);
    if file_size != 0 && file.remaining() < file_size as u64 {
        return Err(FormatError::UnexpectedEof);
    }
    let file_data = read_bytes(&mut file, file_size as u64);
    if pac_decompress_check && file_size != extract_size {
        let mut cursor = ByteCursor::new(file_data.as_slice());
        let mut crilayla = match Crilayla::build(&mut cursor) {
            Ok(c) => c,
            Err(e) => return Err(e),
        };
        assert(crilayla.output_decompressed@ =~= Seq::<u8>::empty());
        return crilayla.decompress_crilayla();
    }
    Ok(file_data)
}

} // verus!
