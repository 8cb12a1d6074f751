//! The text in which bags are kept: a header line, and one line for every
//! label, with the label's node, its path and its costs.
//!
//! ```text
//! node_id|path|weights
//! 2|0,1|3,6
//! ```

use crate::bag::{bag_with, copy_weights, Bag, Label, LabelData, NodeId, Weight};
use crate::maps::keys_of;
use crate::measure::{bag_at, BagsView};
use crate::mlc::{bags_view, Bags};
use crate::node_map::{lists, node_ids, pairs_of, NodeMap};
use crate::text::{
    byte_views, decimal, fields, joined, lines, lines_of, number_of, numbers_of, parse_number,
    parse_numbers, push_decimal, push_joined, split,
};
use std::collections::HashMap;
use vstd::prelude::*;
use vstd::string::StringSliceAdditionalSpecFns;
use vstd::utf8::encode_utf8;

verus! {

/// What is wrong with a line.
#[derive(Debug, Clone, Copy, PartialEq, Eq, Structural)]
pub enum LineError {
    /// The line has fewer than three fields.
    MissingField,
    /// A node or a cost is no number, or one that is too large.
    InvalidNumber,
}

/// Why a text of bags could not be read.
#[derive(Debug, Clone, Copy, PartialEq, Eq, Structural)]
pub struct ReadError {
    /// The line that could not be read, counted from 0 at the line after
    /// the header.
    pub line: usize,
    /// What is wrong with it.
    pub error: LineError,
}

/// What a line of the text says: a node, the path to it, and costs.
pub ghost struct EntryData {
    pub node_id: NodeId,
    pub path: Seq<NodeId>,
    pub values: Seq<u64>,
}

/// What a line of the text says.
#[derive(Debug)]
pub struct LabelEntry {
    pub node_id: NodeId,
    pub path: Vec<NodeId>,
    pub values: Vec<Weight>,
}

impl View for LabelEntry {
    type V = EntryData;

    open spec fn view(&self) -> EntryData {
        EntryData { node_id: self.node_id, path: self.path@, values: self.values@ }
    }
}

/// The header line, with its line feed: `node_id|path|weights`.
pub open spec fn header() -> Seq<u8> {
    seq![
        110u8, 111u8, 100u8, 101u8, 95u8, 105u8, 100u8, 124u8, 112u8, 97u8, 116u8, 104u8, 124u8,
        119u8, 101u8, 105u8, 103u8, 104u8, 116u8, 115u8, 10u8,
    ]
}

/// Every number of `v` is a `usize`.
pub open spec fn all_nodes(v: Seq<u64>) -> bool {
    forall|i: int| 0 <= i < v.len() ==> (#[trigger] v[i]) <= usize::MAX
}

/// The numbers of `v` as nodes.
pub open spec fn as_nodes(v: Seq<u64>) -> Seq<NodeId> {
    Seq::new(v.len(), |i: int| v[i] as usize)
}

/// The nodes of `v` as numbers.
pub open spec fn as_numbers(v: Seq<NodeId>) -> Seq<u64> {
    Seq::new(v.len(), |i: int| v[i] as u64)
}

/// The path that a field stands for: no node where the field is empty, else
/// the nodes between its commas.
pub open spec fn path_of(field: Seq<u8>) -> Option<Seq<NodeId>> {
    if field.len() == 0 {
        Some(Seq::<NodeId>::empty())
    } else {
        match numbers_of(fields(field, 44)) {
            Some(v) => if all_nodes(v) {
                Some(as_nodes(v))
            } else {
                None
            },
            None => None,
        }
    }
}

/// What the line `line` says. Its fields are parted by `|`: the node, the
/// path, and the costs; further fields are not read.
pub open spec fn entry_of(line: Seq<u8>) -> Result<EntryData, LineError> {
    let f = fields(line, 124);
    match number_of(f[0]) {
        None => Err(LineError::InvalidNumber),
        Some(node) => if node > usize::MAX {
            Err(LineError::InvalidNumber)
        } else if f.len() < 2 {
            Err(LineError::MissingField)
        } else {
            match path_of(f[1]) {
                None => Err(LineError::InvalidNumber),
                Some(path) => if f.len() < 3 {
                    Err(LineError::MissingField)
                } else {
                    match numbers_of(fields(f[2], 44)) {
                        None => Err(LineError::InvalidNumber),
                        Some(values) => Ok(EntryData { node_id: node as usize, path, values }),
                    }
                },
            }
        },
    }
}

impl LabelEntry {
    /// Reads a line of the text.
    pub fn from_str(s: &str) -> (r: Result<LabelEntry, LineError>)
        ensures
            match r {
                Ok(entry) => entry_of(s.spec_bytes()) == Ok::<EntryData, LineError>(entry@),
                Err(e) => entry_of(s.spec_bytes()) == Err::<EntryData, LineError>(e),
            },
    {
        LabelEntry::from_bytes(s.as_bytes())
    }

    /// Reads a line of the text.
    pub fn from_bytes(line: &[u8]) -> (r: Result<LabelEntry, LineError>)
        ensures
            match r {
                Ok(entry) => entry_of(line@) == Ok::<EntryData, LineError>(entry@),
                Err(e) => entry_of(line@) == Err::<EntryData, LineError>(e),
            },
    {
        let parts = split(line, 124);
        let ghost f = byte_views(parts@);
        assert(f[0] == parts@[0]@);
        let node = match parse_number(parts[0].as_slice()) {
            Some(n) => n,
            None => {
                return Err(LineError::InvalidNumber);
            },
        };
        if node > usize::MAX as u64 {
            return Err(LineError::InvalidNumber);
        }
        if parts.len() < 2 {
            return Err(LineError::MissingField);
        }
        assert(f[1] == parts@[1]@);
        let mut path: Vec<NodeId> = Vec::new();
        if parts[1].len() > 0 {
            let ids = split(parts[1].as_slice(), 44);
            let numbers = match parse_numbers(&ids) {
                Some(v) => v,
                None => {
                    return Err(LineError::InvalidNumber);
                },
            };
            let mut i: usize = 0;
            while i < numbers.len()
                invariant
                    i <= numbers.len(),
                    path@ == as_nodes(numbers@.take(i as int)),
                    all_nodes(numbers@.take(i as int)),
                    f == fields(line@, 124),
                    f.len() >= 2,
                    f[1].len() > 0,
                    number_of(f[0]) == Some(node),
                    node <= usize::MAX,
                    numbers_of(fields(f[1], 44)) == Some(numbers@),
                decreases numbers.len() - i,
            {
                if numbers[i] > usize::MAX as u64 {
                    assert(numbers@[i as int] > usize::MAX);
                    return Err(LineError::InvalidNumber);
                }
                path.push(numbers[i] as usize);
                proof {
                    let next = numbers@.take(i + 1);
                    assert(next =~= numbers@.take(i as int).push(numbers@[i as int]));
                    assert(path@ =~= as_nodes(next));
                    assert forall|j: int| 0 <= j < next.len() implies (#[trigger] next[j])
                        <= usize::MAX by {
                        if j < i {
                            assert(numbers@.take(i as int)[j] == next[j]);
                        }
                    }
                }
                i += 1;
            }
            assert(numbers@.take(numbers@.len() as int) =~= numbers@);
        } else {
            assert(path@ =~= Seq::<NodeId>::empty());
        }
        if parts.len() < 3 {
            return Err(LineError::MissingField);
        }
        assert(f[2] == parts@[2]@);
        let costs = split(parts[2].as_slice(), 44);
        let values = match parse_numbers(&costs) {
            Some(v) => v,
            None => {
                return Err(LineError::InvalidNumber);
            },
        };
        Ok(LabelEntry { node_id: node as usize, path, values })
    }
}

/// The label that an entry stands for: one without hidden costs.
pub open spec fn label_of(entry: EntryData) -> LabelData<NodeId> {
    LabelData {
        values: entry.values,
        hidden_values: Seq::<u64>::empty(),
        path: entry.path,
        node_id: entry.node_id,
    }
}

/// What the lines `lines` say, or the first line that could not be read.
pub open spec fn entries_of(lines: Seq<Seq<u8>>) -> Result<Seq<EntryData>, ReadError>
    decreases lines.len(),
{
    if lines.len() == 0 {
        Ok(Seq::<EntryData>::empty())
    } else {
        match entries_of(lines.drop_last()) {
            Err(e) => Err(e),
            Ok(front) => match entry_of(lines.last()) {
                Ok(entry) => Ok(front.push(entry)),
                Err(error) => Err(ReadError { line: (lines.len() - 1) as usize, error }),
            },
        }
    }
}

/// The bags that hold the labels of `entries`, offered one after the other
/// to the bag of their node.
pub open spec fn bags_of(entries: Seq<EntryData>) -> BagsView
    decreases entries.len(),
{
    if entries.len() == 0 {
        Map::empty()
    } else {
        let before = bags_of(entries.drop_last());
        let label = label_of(entries.last());
        before.insert(label.node_id, bag_with(bag_at(before, label.node_id as int), label))
    }
}

/// The lines after the first line of `text`.
pub open spec fn data_lines(text: Seq<u8>) -> Seq<Seq<u8>> {
    if lines_of(text).len() == 0 {
        Seq::empty()
    } else {
        lines_of(text).skip(1)
    }
}

/// Reads the bags from their text: the first line is passed over, and the
/// label of every other line is offered to the bag of its node.
pub fn parse_bags(text: &[u8]) -> (r: Result<Bags<usize>, ReadError>)
    ensures
        match r {
            Ok(bags) => match entries_of(data_lines(text@)) {
                Ok(entries) => bags_view(bags@) == bags_of(entries),
                Err(_) => false,
            },
            Err(e) => entries_of(data_lines(text@)) == Err::<Seq<EntryData>, ReadError>(e),
        },
{
    broadcast use vstd::std_specs::hash::group_hash_axioms;

    let all = lines(text);
    let ghost data = data_lines(text@);
    let mut bags: Bags<usize> = HashMap::new();
    let ghost mut entries: Seq<EntryData> = Seq::empty();
    let mut i: usize = 1;
    assert(data.take(0) =~= Seq::<Seq<u8>>::empty());
    assert(bags_view(bags@) =~= bags_of(entries));
    if all.len() <= 1 {
        assert(byte_views(all@).len() == all@.len());
        assert(data =~= Seq::<Seq<u8>>::empty());
        return Ok(bags);
    }
    while i < all.len()
        invariant
            1 <= i <= all.len(),
            byte_views(all@) == lines_of(text@),
            data == data_lines(text@),
            entries_of(data.take(i - 1)) == Ok::<Seq<EntryData>, ReadError>(entries),
            bags_view(bags@) == bags_of(entries),
        decreases all.len() - i,
    {
        proof {
            let next = data.take(i as int);
            assert(next.drop_last() =~= data.take(i - 1));
            assert(next.last() == all@[i as int]@);
        }
        let entry = match LabelEntry::from_bytes(all[i].as_slice()) {
            Ok(entry) => entry,
            Err(error) => {
                proof {
                    lemma_entries_fail(data, i as int);
                }
                return Err(ReadError { line: i - 1, error });
            },
        };
        let ghost e = entry@;
        let label = Label {
            values: entry.values,
            hidden_values: Vec::new(),
            path: entry.path,
            node_id: entry.node_id,
        };
        assert(label@ == label_of(e));
        let ghost before = bags_view(bags@);
        let node = label.node_id;
        let mut bag = match bags.remove(&node) {
            Some(b) => b,
            None => Bag::new_empty(),
        };
        assert(bag@ == bag_at(before, node as int));
        bag.add_if_necessary(label);
        bags.insert(node, bag);
        proof {
            let grown = entries.push(e);
            assert(grown.drop_last() =~= entries);
            assert(bags_view(bags@) =~= bags_of(grown));
            entries = grown;
        }
        i += 1;
    }
    assert(data.take(data.len() as int) =~= data);
    Ok(bags)
}

/// Where a line among the first lines could not be read, that line is the
/// first of all lines that could not be read.
pub proof fn lemma_entries_fail(lines: Seq<Seq<u8>>, i: int)
    requires
        0 <= i <= lines.len(),
        entries_of(lines.take(i)) is Err,
    ensures
        entries_of(lines) == entries_of(lines.take(i)),
    decreases lines.len() - i,
{
    if i < lines.len() {
        assert(lines.take(i + 1).drop_last() =~= lines.take(i));
        lemma_entries_fail(lines, i + 1);
    } else {
        assert(lines.take(i) =~= lines);
    }
}

/// The line for a label: its node, its path, and its costs, the hidden ones
/// after the others, with a line feed at the end.
pub open spec fn line_of(label: LabelData<NodeId>) -> Seq<u8> {
    decimal(label.node_id as nat).push(124) + joined(as_numbers(label.path), 44).push(124)
        + joined(label.values + label.hidden_values, 44).push(10)
}

/// The lines for the labels `labels`, one after the other.
pub open spec fn lines_for(labels: Seq<LabelData<NodeId>>) -> Seq<u8>
    decreases labels.len(),
{
    if labels.len() == 0 {
        Seq::<u8>::empty()
    } else {
        lines_for(labels.drop_last()) + line_of(labels.last())
    }
}

/// The lines for the bags of the nodes `nodes`, one bag after the other.
pub open spec fn lines_for_bags(bags: BagsView, nodes: Seq<NodeId>) -> Seq<u8>
    decreases nodes.len(),
{
    if nodes.len() == 0 {
        Seq::<u8>::empty()
    } else {
        lines_for_bags(bags, nodes.drop_last()) + lines_for(bag_at(bags, nodes.last() as int))
    }
}

/// Writes the line for `label` at the end of `out`.
pub fn push_line(out: &mut Vec<u8>, label: &Label<NodeId>)
    ensures
        final(out)@ == old(out)@ + line_of(label@),
{
    push_decimal(out, label.node_id as u64);
    out.push(124);
    let mut path: Vec<u64> = Vec::new();
    let mut i: usize = 0;
    while i < label.path.len()
        invariant
            i <= label.path.len(),
            path@ == as_numbers(label.path@.take(i as int)),
        decreases label.path.len() - i,
    {
        path.push(label.path[i] as u64);
        assert(path@ =~= as_numbers(label.path@.take(i + 1)));
        i += 1;
    }
    assert(label.path@.take(label.path@.len() as int) =~= label.path@);
    push_joined(out, &path, 44);
    out.push(124);
    let mut values = copy_weights(&label.values);
    let mut j: usize = 0;
    while j < label.hidden_values.len()
        invariant
            j <= label.hidden_values.len(),
            values@ == label.values@ + label.hidden_values@.take(j as int),
        decreases label.hidden_values.len() - j,
    {
        values.push(label.hidden_values[j]);
        assert(values@ =~= label.values@ + label.hidden_values@.take(j + 1));
        j += 1;
    }
    assert(label.hidden_values@.take(label.hidden_values@.len() as int)
        =~= label.hidden_values@);
    push_joined(out, &values, 44);
    out.push(10);
    assert(out@ =~= old(out)@ + line_of(label@));
}

/// Writes the header line.
pub fn push_header(out: &mut Vec<u8>)
    ensures
        final(out)@ == old(out)@ + header(),
{
    let text: [u8; 21] = [
        110,
        111,
        100,
        101,
        95,
        105,
        100,
        124,
        112,
        97,
        116,
        104,
        124,
        119,
        101,
        105,
        103,
        104,
        116,
        115,
        10,
    ];
    let mut i: usize = 0;
    assert(header().take(0) =~= Seq::<u8>::empty());
    assert(out@ =~= old(out)@ + header().take(0));
    while i < 21
        invariant
            i <= 21,
            text@ == header(),
            out@ == old(out)@ + header().take(i as int),
        decreases 21 - i,
    {
        out.push(text[i]);
        assert(header().take(i + 1) =~= header().take(i as int).push(header()[i as int]));
        assert(out@ =~= old(out)@ + header().take(i + 1));
        i += 1;
    }
    assert(header().take(21) =~= header());
}

/// The text of the bags: the header line, and the lines of the labels, bag
/// by bag. The bags come in the order in which the map hands them out.
pub fn format_bags(bags: &Bags<usize>) -> (r: Vec<u8>)
    ensures
        exists|nodes: Seq<NodeId>|
            nodes.no_duplicates() && nodes.to_set() == bags_view(bags@).dom() && r@ == header()
                + #[trigger] lines_for_bags(bags_view(bags@), nodes),
{
    broadcast use vstd::std_specs::hash::group_hash_axioms;

    let nodes = keys_of(bags);
    assert(bags_view(bags@).dom() =~= bags@.dom());
    format_bags_in_order(bags, &nodes)
}

/// The text of the bags of the nodes `nodes`: the header line, and the lines
/// of the labels, bag by bag. A node without a bag gives no line.
pub fn format_bags_in_order(bags: &Bags<usize>, nodes: &Vec<NodeId>) -> (r: Vec<u8>)
    ensures
        r@ == header() + lines_for_bags(bags_view(bags@), nodes@),
{
    broadcast use vstd::std_specs::hash::group_hash_axioms;

    let mut out: Vec<u8> = Vec::new();
    push_header(&mut out);
    let ghost view = bags_view(bags@);
    let mut a: usize = 0;
    assert(nodes@.take(0) =~= Seq::<NodeId>::empty());
    assert(out@ =~= header() + lines_for_bags(view, nodes@.take(0)));
    while a < nodes.len()
        invariant
            a <= nodes.len(),
            view == bags_view(bags@),
            out@ == header() + lines_for_bags(view, nodes@.take(a as int)),
        decreases nodes.len() - a,
    {
        let ghost before = out@;
        let ghost bag_view = bag_at(view, nodes@[a as int] as int);
        match bags.get(&nodes[a]) {
            Some(bag) => {
                assert(bag@ == bag_view);
                let mut i: usize = 0;
                assert(bag_view.take(0) =~= Seq::<LabelData<NodeId>>::empty());
                assert(out@ =~= before + lines_for(bag_view.take(0)));
                while i < bag.labels.len()
                    invariant
                        i <= bag.labels.len(),
                        bag@ == bag_view,
                        out@ == before + lines_for(bag_view.take(i as int)),
                    decreases bag.labels.len() - i,
                {
                    proof {
                        let next = bag_view.take(i + 1);
                        assert(next.drop_last() =~= bag_view.take(i as int));
                        assert(next.last() == bag.labels@[i as int]@);
                    }
                    push_line(&mut out, &bag.labels[i]);
                    assert(out@ =~= before + lines_for(bag_view.take(i + 1)));
                    i += 1;
                }
                assert(bag_view.take(bag_view.len() as int) =~= bag_view);
            },
            None => {
                assert(lines_for(bag_view) =~= Seq::<u8>::empty());
                assert(out@ =~= before + lines_for(bag_view));
            },
        }
        proof {
            let next = nodes@.take(a + 1);
            assert(next.drop_last() =~= nodes@.take(a as int));
            assert(next.last() == nodes@[a as int]);
            assert(out@ =~= header() + lines_for_bags(view, next));
        }
        a += 1;
    }
    assert(nodes@.take(nodes@.len() as int) =~= nodes@);
    out
}

/// The line for a label whose nodes are known by their names: the name of
/// its node, the names of its path, and its costs, the hidden ones after the
/// others, with a line feed at the end.
pub open spec fn named_line_of(label: LabelData<String>) -> Seq<u8> {
    encode_utf8(label.node_id@).push(124) + joined_names(label.path).push(124) + joined(
        label.values + label.hidden_values,
        44,
    ).push(10)
}

/// The names `names`, with commas between them.
pub open spec fn joined_names(names: Seq<String>) -> Seq<u8>
    decreases names.len(),
{
    if names.len() == 0 {
        Seq::<u8>::empty()
    } else if names.len() == 1 {
        encode_utf8(names[0]@)
    } else {
        joined_names(names.drop_last()).push(44) + encode_utf8(names.last()@)
    }
}

/// The lines for the labels `labels`, one after the other.
pub open spec fn named_lines_for(labels: Seq<LabelData<String>>) -> Seq<u8>
    decreases labels.len(),
{
    if labels.len() == 0 {
        Seq::<u8>::empty()
    } else {
        named_lines_for(labels.drop_last()) + named_line_of(labels.last())
    }
}

/// The lines for the bags `bags`, one bag after the other.
pub open spec fn named_lines_for_bags(bags: Seq<(String, Bag<String>)>) -> Seq<u8>
    decreases bags.len(),
{
    if bags.len() == 0 {
        Seq::<u8>::empty()
    } else {
        named_lines_for_bags(bags.drop_last()) + named_lines_for(bags.last().1@)
    }
}

/// Writes the bytes of `name` at the end of `out`.
fn push_name(out: &mut Vec<u8>, name: &String)
    ensures
        final(out)@ == old(out)@ + encode_utf8(name@),
{
    let bytes = name.as_str().as_bytes();
    let mut i: usize = 0;
    assert(out@ =~= old(out)@ + bytes@.take(0));
    while i < bytes.len()
        invariant
            i <= bytes.len(),
            out@ == old(out)@ + bytes@.take(i as int),
        decreases bytes.len() - i,
    {
        out.push(bytes[i]);
        assert(bytes@.take(i + 1) =~= bytes@.take(i as int).push(bytes@[i as int]));
        assert(out@ =~= old(out)@ + bytes@.take(i + 1));
        i += 1;
    }
    assert(bytes@.take(bytes@.len() as int) =~= bytes@);
}

/// Writes the line for `label` at the end of `out`.
pub fn push_named_line(out: &mut Vec<u8>, label: &Label<String>)
    ensures
        final(out)@ == old(out)@ + named_line_of(label@),
{
    push_name(out, &label.node_id);
    out.push(124);
    let ghost head = out@;
    let mut i: usize = 0;
    assert(label.path@.take(0) =~= Seq::<String>::empty());
    assert(out@ =~= head + joined_names(label.path@.take(0)));
    while i < label.path.len()
        invariant
            i <= label.path.len(),
            out@ == head + joined_names(label.path@.take(i as int)),
        decreases label.path.len() - i,
    {
        let ghost next = label.path@.take(i + 1);
        proof {
            assert(next.drop_last() =~= label.path@.take(i as int));
            assert(next.last() == label.path@[i as int]);
        }
        if i > 0 {
            out.push(44);
        }
        push_name(out, &label.path[i]);
        proof {
            if i > 0 {
                assert(out@ =~= head + (joined_names(label.path@.take(i as int)).push(44)
                    + encode_utf8(label.path@[i as int]@)));
            } else {
                assert(next[0] == label.path@[0]);
                assert(joined_names(label.path@.take(0)) =~= Seq::<u8>::empty());
                assert(out@ =~= head + encode_utf8(label.path@[0]@));
            }
        }
        i += 1;
    }
    assert(label.path@.take(label.path@.len() as int) =~= label.path@);
    out.push(124);
    let mut values = copy_weights(&label.values);
    let mut j: usize = 0;
    while j < label.hidden_values.len()
        invariant
            j <= label.hidden_values.len(),
            values@ == label.values@ + label.hidden_values@.take(j as int),
        decreases label.hidden_values.len() - j,
    {
        values.push(label.hidden_values[j]);
        assert(values@ =~= label.values@ + label.hidden_values@.take(j + 1));
        j += 1;
    }
    assert(label.hidden_values@.take(label.hidden_values@.len() as int)
        =~= label.hidden_values@);
    push_joined(out, &values, 44);
    out.push(10);
    assert(out@ =~= old(out)@ + named_line_of(label@));
}

/// The text of bags whose nodes are known by their names: the header line,
/// and the lines of the labels, bag by bag.
pub fn format_named_bags(bags: &Vec<(String, Bag<String>)>) -> (r: Vec<u8>)
    ensures
        r@ == header() + named_lines_for_bags(bags@),
{
    let mut out: Vec<u8> = Vec::new();
    push_header(&mut out);
    let mut a: usize = 0;
    assert(bags@.take(0) =~= Seq::<(String, Bag<String>)>::empty());
    assert(out@ =~= header() + named_lines_for_bags(bags@.take(0)));
    while a < bags.len()
        invariant
            a <= bags.len(),
            out@ == header() + named_lines_for_bags(bags@.take(a as int)),
        decreases bags.len() - a,
    {
        let ghost before = out@;
        let bag = &bags[a].1;
        let ghost bag_view = bag@;
        let mut i: usize = 0;
        assert(bag_view.take(0) =~= Seq::<LabelData<String>>::empty());
        assert(out@ =~= before + named_lines_for(bag_view.take(0)));
        while i < bag.labels.len()
            invariant
                i <= bag.labels.len(),
                bag@ == bag_view,
                out@ == before + named_lines_for(bag_view.take(i as int)),
            decreases bag.labels.len() - i,
        {
            proof {
                let next = bag_view.take(i + 1);
                assert(next.drop_last() =~= bag_view.take(i as int));
                assert(next.last() == bag.labels@[i as int]@);
            }
            push_named_line(&mut out, &bag.labels[i]);
            assert(out@ =~= before + named_lines_for(bag_view.take(i + 1)));
            i += 1;
        }
        proof {
            assert(bag_view.take(bag_view.len() as int) =~= bag_view);
            let next = bags@.take(a + 1);
            assert(next.drop_last() =~= bags@.take(a as int));
            assert(next.last() == bags@[a as int]);
            assert(out@ =~= header() + named_lines_for_bags(next));
        }
        a += 1;
    }
    assert(bags@.take(bags@.len() as int) =~= bags@);
    out
}

/// The header line of the text of a node map, with its line feed:
/// `node_id,mlc_node_id`.
pub open spec fn node_map_header() -> Seq<u8> {
    seq![
        110u8, 111u8, 100u8, 101u8, 95u8, 105u8, 100u8, 44u8, 109u8, 108u8, 99u8, 95u8, 110u8,
        111u8, 100u8, 101u8, 95u8, 105u8, 100u8, 10u8,
    ]
}

/// The line for a name and its index: the name, a comma, the index in
/// decimal, and a line feed.
pub open spec fn pair_line(pair: (String, usize)) -> Seq<u8> {
    encode_utf8(pair.0@).push(44) + decimal(pair.1 as nat).push(10)
}

/// The lines for the pairs `pairs`, one after the other.
pub open spec fn pair_lines(pairs: Seq<(String, usize)>) -> Seq<u8>
    decreases pairs.len(),
{
    if pairs.len() == 0 {
        Seq::<u8>::empty()
    } else {
        pair_lines(pairs.drop_last()) + pair_line(pairs.last())
    }
}

/// Writes the header line of the text of a node map.
fn push_node_map_header(out: &mut Vec<u8>)
    ensures
        final(out)@ == old(out)@ + node_map_header(),
{
    let text: [u8; 20] = [
        110,
        111,
        100,
        101,
        95,
        105,
        100,
        44,
        109,
        108,
        99,
        95,
        110,
        111,
        100,
        101,
        95,
        105,
        100,
        10,
    ];
    let mut i: usize = 0;
    assert(node_map_header().take(0) =~= Seq::<u8>::empty());
    assert(out@ =~= old(out)@ + node_map_header().take(0));
    while i < 20
        invariant
            i <= 20,
            text@ == node_map_header(),
            out@ == old(out)@ + node_map_header().take(i as int),
        decreases 20 - i,
    {
        out.push(text[i]);
        assert(node_map_header().take(i + 1) =~= node_map_header().take(i as int).push(
            node_map_header()[i as int],
        ));
        assert(out@ =~= old(out)@ + node_map_header().take(i + 1));
        i += 1;
    }
    assert(node_map_header().take(20) =~= node_map_header());
}

/// The text of the pairs `pairs`: the header line, and a line for every
/// pair.
pub fn format_pairs(pairs: &Vec<(String, usize)>) -> (r: Vec<u8>)
    ensures
        r@ == node_map_header() + pair_lines(pairs@),
{
    let mut out: Vec<u8> = Vec::new();
    push_node_map_header(&mut out);
    let mut i: usize = 0;
    assert(pairs@.take(0) =~= Seq::<(String, usize)>::empty());
    assert(out@ =~= node_map_header() + pair_lines(pairs@.take(0)));
    while i < pairs.len()
        invariant
            i <= pairs.len(),
            out@ == node_map_header() + pair_lines(pairs@.take(i as int)),
        decreases pairs.len() - i,
    {
        let ghost before = out@;
        push_name(&mut out, &pairs[i].0);
        out.push(44);
        push_decimal(&mut out, pairs[i].1 as u64);
        out.push(10);
        proof {
            let next = pairs@.take(i + 1);
            assert(next.drop_last() =~= pairs@.take(i as int));
            assert(next.last() == pairs@[i as int]);
            assert(out@ =~= before + pair_line(pairs@[i as int]));
            assert(out@ =~= node_map_header() + pair_lines(next));
        }
        i += 1;
    }
    assert(pairs@.take(pairs@.len() as int) =~= pairs@);
    out
}

/// The text of a node map: the header line, and a line for every name with
/// its index. The names come in the order in which the map hands them out.
pub fn format_node_map(node_map: &NodeMap) -> (r: Vec<u8>)
    ensures
        exists|pairs: Seq<(String, usize)>|
            lists(node_ids(*node_map), pairs) && r@ == node_map_header() + #[trigger] pair_lines(
                pairs,
            ),
{
    let pairs = pairs_of(node_map);
    format_pairs(&pairs)
}

} // verus!
