//! The graph of numbered objects as a text: one block for each object, with
//! a line for each relation that others bear on it.

use vstd::prelude::*;
use vstd::slice::slice_subrange;
use vstd::string::StringExecFns;
use crate::bimap::is_row_listing;
use crate::bimap::nested_insert;
use crate::bimap::nested_row;
use crate::format::Block;
use crate::format::find_char;
use crate::format::find_separator;
use crate::format::first_index;
use crate::format::is_bracketed;
use crate::format::parse_header;
use crate::format::parse_source;
use crate::format::split_lines;
use crate::format::strip_cr;
use crate::format::tokens;
use crate::format::trim;
use crate::format::trim_slice;
use crate::graph::Graph;
use crate::graph::NodeKey;
use crate::graph::ObjectOrSet;
use crate::graph::ObjectRef;
use crate::graph::ObjectRelation;
use crate::graph::Relation;
use crate::ident::Object;
use crate::ident::VertexKey;
use crate::ident::same_text;
use crate::related::Incoming;
use crate::related::Outgoing;
use crate::savefile::header_of;
use crate::savefile::source_of;
use crate::table::distinct;
use crate::table::views_of;
use crate::text::text_of;
use crate::text::to_chars;

verus! {

/// One line of a block: a relation and the sources that bear it.
pub type Row = (Seq<char>, Seq<NodeKey>);

/// One block: an object, its number and its lines.
pub type BlockRows = (VertexKey, u32, Seq<Row>);

/// How a source is written inside the block of `block`, if its object is
/// registered: `self` for the object of the block itself, else namespace and
/// id; then `#` and the relation for a set.
pub open spec fn written_source(
    objects: Map<u32, VertexKey>,
    block: VertexKey,
    x: NodeKey,
) -> Option<Seq<char>> {
    if objects.dom().contains(x.object) {
        let o = objects[x.object];
        let base = if o.namespace == block.namespace && o.id == block.id {
            seq!['s', 'e', 'l', 'f']
        } else {
            o.namespace + seq![':'] + o.id
        };
        Some(
            match x.relation {
                Some(relation) => base + seq!['#'] + relation,
                None => base,
            },
        )
    } else {
        None
    }
}

/// The sources of one line that are written, with a comma and a blank
/// between them, or nothing where none is written.
pub open spec fn joined_sources(
    objects: Map<u32, VertexKey>,
    block: VertexKey,
    sources: Seq<NodeKey>,
) -> Option<Seq<char>>
    decreases sources.len(),
{
    if sources.len() == 0 {
        None
    } else {
        let front = joined_sources(objects, block, sources.drop_last());
        match written_source(objects, block, sources.last()) {
            None => front,
            Some(text) => match front {
                None => Some(text),
                Some(before) => Some(before + seq![',', ' '] + text),
            },
        }
    }
}

/// What stands between the brackets of a line.
pub open spec fn payload_text(
    objects: Map<u32, VertexKey>,
    block: VertexKey,
    sources: Seq<NodeKey>,
) -> Seq<char> {
    match joined_sources(objects, block, sources) {
        Some(text) => text,
        None => Seq::<char>::empty(),
    }
}

/// One line with its line feed.
pub open spec fn row_text(objects: Map<u32, VertexKey>, block: VertexKey, row: Row) -> Seq<char> {
    row.0 + seq![' ', '=', ' ', '['] + payload_text(objects, block, row.1) + seq![']', '\n']
}

/// The lines of a block.
pub open spec fn rows_text(objects: Map<u32, VertexKey>, block: VertexKey, rows: Seq<Row>) -> Seq<
    char,
>
    decreases rows.len(),
{
    if rows.len() == 0 {
        Seq::<char>::empty()
    } else {
        rows_text(objects, block, rows.drop_last()) + row_text(objects, block, rows.last())
    }
}

/// One block: its header, its lines and an empty line.
pub open spec fn block_text(objects: Map<u32, VertexKey>, block: BlockRows) -> Seq<char> {
    seq!['['] + block.0.namespace + seq![':'] + block.0.id + seq![']', '\n'] + rows_text(
        objects,
        block.0,
        block.2,
    ) + seq!['\n']
}

/// The blocks one after the other.
pub open spec fn blocks_text(objects: Map<u32, VertexKey>, blocks: Seq<BlockRows>) -> Seq<char>
    decreases blocks.len(),
{
    if blocks.len() == 0 {
        Seq::<char>::empty()
    } else {
        blocks_text(objects, blocks.drop_last()) + block_text(objects, blocks.last())
    }
}

/// `rows` names each relation of `row_map` once, with the sources that bear
/// it, each once.
pub open spec fn is_rows_of(rows: Seq<Row>, row_map: Map<Seq<char>, Set<NodeKey>>) -> bool {
    &&& forall|i: int, j: int| 0 <= i < j < rows.len() ==> rows[i].0 != rows[j].0
    &&& forall|i: int|
        0 <= i < rows.len() ==> row_map.dom().contains((#[trigger] rows[i]).0) && distinct(
            rows[i].1,
        ) && (forall|x: NodeKey| rows[i].1.contains(x) <==> row_map[rows[i].0].contains(x))
    &&& forall|relation: Seq<char>|
        row_map.dom().contains(relation) ==> exists|i: int|
            0 <= i < rows.len() && (#[trigger] rows[i]).0 == relation
}

/// The rows that a listing of a row names.
pub open spec fn rows_view(list: Seq<(&Relation, Vec<&ObjectOrSet>)>) -> Seq<Row> {
    Seq::new(list.len(), |i: int| (list[i].0@, views_of(list[i].1@)))
}

/// A graph as it stands while a text is read, or after.
pub struct GraphState {
    pub refs: Map<VertexKey, u32>,
    pub objects: Map<u32, VertexKey>,
    pub outgoing: Outgoing,
    pub incoming: Incoming,
    pub next_ref: u32,
}

/// A relation that waits for all objects to be registered: the source as the
/// text names it, the number of the destination, and the relation.
pub type Pending = (VertexKey, u32, Seq<char>);

/// What is known while a text is read: the graph so far, the block that is
/// open with the number of its object, and the relations that wait.
pub struct Loading {
    pub state: GraphState,
    pub current: Option<(u32, Block)>,
    pub pending: Seq<Pending>,
}

/// The graph without objects and relations.
pub open spec fn empty_state() -> GraphState {
    GraphState {
        refs: Map::empty(),
        objects: Map::empty(),
        outgoing: Map::empty(),
        incoming: Map::empty(),
        next_ref: 0,
    }
}

/// The relation and the text between the brackets of a relation line: the
/// line is not in brackets and holds `=`, `[` and `]`, first occurring in that
/// order. The relation is what stands before `=` without white space around
/// it, the payload what stands between the brackets as it is.
pub open spec fn parse_raw_relation(line: Seq<char>) -> Option<(Seq<char>, Seq<char>)> {
    let e = first_index(line, '=');
    let l = first_index(line, '[');
    let r = first_index(line, ']');
    if !is_bracketed(line) && 0 <= e < l && l < r < line.len() {
        Some((trim(line.subrange(0, e)), line.subrange(l + 1, r)))
    } else {
        None
    }
}

/// The relations that the pieces of a payload name, each waiting.
pub open spec fn pending_of(
    block: Block,
    index: u32,
    relation: Seq<char>,
    pieces: Seq<Seq<char>>,
) -> Seq<Pending> {
    Seq::new(pieces.len(), |i: int| (parse_source(block, pieces[i]), index, relation))
}

/// The object of a block.
pub open spec fn block_object(block: Block) -> VertexKey {
    VertexKey { namespace: block.0, id: block.1, relation: None }
}

/// What is known after a line. A header registers its object under the next
/// number and opens its block; a relation line inside a block lets its
/// relations wait; any other line changes nothing. Where the numbers are
/// used up, reading fails.
pub open spec fn load_line(before: Loading, line: Seq<char>) -> Option<Loading> {
    match parse_header(line) {
        Some(block) => {
            if before.state.next_ref == u32::MAX {
                None
            } else {
                let index = before.state.next_ref;
                Some(
                    Loading {
                        state: GraphState {
                            refs: before.state.refs.insert(block_object(block), index),
                            objects: before.state.objects.insert(index, block_object(block)),
                            next_ref: (index + 1) as u32,
                            ..before.state
                        },
                        current: Some((index, block)),
                        pending: before.pending,
                    },
                )
            }
        },
        None => match (before.current, parse_raw_relation(line)) {
            (Some(current), Some((relation, payload))) => Some(
                Loading {
                    pending: before.pending + pending_of(
                        current.1,
                        current.0,
                        relation,
                        tokens(payload),
                    ),
                    ..before
                },
            ),
            _ => Some(before),
        },
    }
}

/// What is known after a sequence of lines.
pub open spec fn load_lines(before: Loading, lines: Seq<Seq<char>>) -> Option<Loading>
    decreases lines.len(),
{
    if lines.len() == 0 {
        Some(before)
    } else {
        match load_line(before, lines[0]) {
            Some(next) => load_lines(next, lines.drop_first()),
            None => None,
        }
    }
}

/// The graph after the relations that waited were added, each from the
/// number under which the object of its source is registered. Where the
/// object of a source is not registered, there is no graph.
pub open spec fn link(state: GraphState, pending: Seq<Pending>) -> Option<GraphState>
    decreases pending.len(),
{
    if pending.len() == 0 {
        Some(state)
    } else {
        let (src, dst, relation) = pending[0];
        let object = VertexKey { namespace: src.namespace, id: src.id, relation: None };
        if state.refs.dom().contains(object) {
            let from = NodeKey { object: state.refs[object], relation: src.relation };
            link(
                GraphState {
                    outgoing: nested_insert(state.outgoing, from, relation, dst),
                    incoming: nested_insert(state.incoming, dst, relation, from),
                    ..state
                },
                pending.drop_first(),
            )
        } else {
            None
        }
    }
}

/// The graph that a text describes, if it describes one.
pub open spec fn loaded_graph(text: Seq<char>) -> Option<GraphState> {
    match load_lines(
        Loading { state: empty_state(), current: None, pending: Seq::empty() },
        split_lines(text),
    ) {
        Some(loading) => link(loading.state, loading.pending),
        None => None,
    }
}

/// The relations that wait, as the reader holds them.
pub open spec fn pending_view(list: Seq<(crate::ident::ObjectOrSet, ObjectRef, String)>) -> Seq<
    Pending,
> {
    Seq::new(list.len(), |i: int| (list[i].0@, list[i].1@, list[i].2@))
}

/// The block that is open, as the reader holds it.
pub open spec fn current_view(current: Option<(ObjectRef, String, String)>) -> Option<
    (u32, Block),
> {
    match current {
        Some(c) => Some((c.0@, (c.1@, c.2@))),
        None => None,
    }
}

impl Graph {
    /// The graph as a value of the model.
    pub open spec fn state(&self) -> GraphState {
        GraphState {
            refs: self.refs(),
            objects: self.objects(),
            outgoing: self.outgoing(),
            incoming: self.incoming(),
            next_ref: self.next_ref(),
        }
    }

    /// `blocks` names each registered object once, with its number and with
    /// the relations that others bear on it.
    pub open spec fn is_layout(&self, blocks: Seq<BlockRows>) -> bool {
        &&& forall|i: int, j: int| 0 <= i < j < blocks.len() ==> blocks[i].0 != blocks[j].0
        &&& forall|i: int|
            0 <= i < blocks.len() ==> self.refs().dom().contains((#[trigger] blocks[i]).0)
                && self.refs()[blocks[i].0] == blocks[i].1 && is_rows_of(
                blocks[i].2,
                nested_row(self.incoming(), blocks[i].1),
            )
        &&& forall|k: VertexKey|
            self.refs().dom().contains(k) ==> exists|i: int|
                0 <= i < blocks.len() && (#[trigger] blocks[i]).0 == k
    }

    /// Writes a source as it stands inside the block of `block`, if its
    /// object is registered. Returns whether it was written.
    fn write_source(
        &self,
        out: &mut String,
        block: &Object,
        x: &ObjectOrSet,
        first: bool,
    ) -> (written: bool)
        ensures
            written == written_source(self.objects(), block@, x@) is Some,
            !written ==> final(out)@ == old(out)@,
            written && first ==> final(out)@ == old(out)@ + written_source(
                self.objects(),
                block@,
                x@,
            )->0,
            written && !first ==> final(out)@ == old(out)@ + seq![',', ' '] + written_source(
                self.objects(),
                block@,
                x@,
            )->0,
    {
        let ghost start = out@;
        match self.nodes.get_by_b(x.object_ref()) {
            None => false,
            Some(object) => {
                proof {
                    reveal_strlit(", ");
                    reveal_strlit("self");
                    reveal_strlit(":");
                    reveal_strlit("#");
                    assert(", "@ =~= seq![',', ' ']);
                    assert("self"@ =~= seq!['s', 'e', 'l', 'f']);
                    assert(":"@ =~= seq![':']);
                    assert("#"@ =~= seq!['#']);
                }
                if !first {
                    out.append(", ");
                }
                let ghost lead = out@;
                if same_text(object.namespace(), block.namespace()) && same_text(
                    object.id(),
                    block.id(),
                ) {
                    out.append("self");
                } else {
                    out.append(object.namespace());
                    out.append(":");
                    out.append(object.id());
                }
                if let Some(relation) = x.relation() {
                    out.append("#");
                    out.append(relation.as_str());
                }
                assert(out@ =~= lead + written_source(self.objects(), block@, x@)->0);
                true
            },
        }
    }

    /// Writes one line of the block of `block`.
    fn write_row(
        &self,
        out: &mut String,
        block: &Object,
        relation: &Relation,
        sources: &Vec<&ObjectOrSet>,
    )
        ensures
            final(out)@ == old(out)@ + row_text(
                self.objects(),
                block@,
                (relation@, views_of(sources@)),
            ),
    {
        let ghost start = out@;
        let ghost keys = views_of(sources@);
        let ghost objects = self.objects();
        proof {
            reveal_strlit(" = [");
            reveal_strlit("]\n");
            assert(" = ["@ =~= seq![' ', '=', ' ', '[']);
            assert("]\n"@ =~= seq![']', '\n']);
        }
        out.append(relation.as_str());
        out.append(" = [");
        let ghost lead = out@;
        let mut first = true;
        let mut k: usize = 0;
        assert(keys.take(0) =~= Seq::<NodeKey>::empty());
        while k < sources.len()
            invariant
                k <= sources.len(),
                keys == views_of(sources@),
                objects == self.objects(),
                first == joined_sources(objects, block@, keys.take(k as int)) is None,
                out@ == lead + payload_text(objects, block@, keys.take(k as int)),
            decreases sources.len() - k,
        {
            let ghost before = keys.take(k as int);
            let ghost after = keys.take(k + 1);
            proof {
                assert(after.drop_last() =~= before);
                assert(after.last() == sources[k as int]@);
            }
            let written = self.write_source(out, block, sources[k], first);
            if written {
                first = false;
            }
            assert(out@ =~= lead + payload_text(objects, block@, after));
            k += 1;
        }
        assert(keys.take(sources.len() as int) =~= keys);
        out.append("]\n");
        assert(out@ =~= start + row_text(objects, block@, (relation@, keys)));
    }

    /// Writes the graph as a text: for each registered object a header, a
    /// line for each relation that others bear on it, and an empty line.
    /// Sources whose object is not registered are left out. The order of the
    /// blocks, of the lines and of the sources is that in which the graph
    /// holds them.
    pub fn to_file(&self) -> (text: String)
        ensures
            exists|blocks: Seq<BlockRows>|
                self.is_layout(blocks) && text@ == blocks_text(self.objects(), blocks),
    {
        let entries = self.nodes.iter();
        let ghost objects = self.objects();
        let ghost mut blocks: Seq<BlockRows> = Seq::empty();
        let mut out = String::new();
        let mut i: usize = 0;
        while i < entries.len()
            invariant
                i <= entries.len(),
                objects == self.objects(),
                blocks.len() == i,
                out@ == blocks_text(objects, blocks),
                forall|p: int|
                    0 <= p < i ==> (#[trigger] blocks[p]).0 == entries[p].0@ && blocks[p].1
                        == entries[p].1@ && is_rows_of(
                        blocks[p].2,
                        nested_row(self.incoming(), blocks[p].1),
                    ),
            decreases entries.len() - i,
        {
            let object = entries[i].0;
            let index = entries[i].1;
            let ghost start = out@;
            proof {
                reveal_strlit("[");
                reveal_strlit(":");
                reveal_strlit("]\n");
                reveal_strlit("\n");
                assert("["@ =~= seq!['[']);
                assert(":"@ =~= seq![':']);
                assert("]\n"@ =~= seq![']', '\n']);
                assert("\n"@ =~= seq!['\n']);
            }
            out.append("[");
            out.append(object.namespace());
            out.append(":");
            out.append(object.id());
            out.append("]\n");
            let ghost headed = out@;
            let rows = self.edges.get_by_c(index);
            let ghost all_rows = rows_view(rows@);
            let mut j: usize = 0;
            assert(all_rows.take(0) =~= Seq::<Row>::empty());
            while j < rows.len()
                invariant
                    j <= rows.len(),
                    objects == self.objects(),
                    all_rows == rows_view(rows@),
                    out@ == headed + rows_text(objects, object@, all_rows.take(j as int)),
                decreases rows.len() - j,
            {
                let ghost before = all_rows.take(j as int);
                let ghost after = all_rows.take(j + 1);
                proof {
                    assert(after.drop_last() =~= before);
                    assert(after.last() == (rows[j as int].0@, views_of(rows[j as int].1@)));
                }
                self.write_row(&mut out, object, rows[j].0, &rows[j].1);
                assert(out@ =~= headed + rows_text(objects, object@, after));
                j += 1;
            }
            out.append("\n");
            proof {
                assert(all_rows.take(rows.len() as int) =~= all_rows);
                let block: BlockRows = (object@, index@, all_rows);
                let longer = blocks.push(block);
                assert(longer.drop_last() =~= blocks);
                assert(out@ =~= start + block_text(objects, block));
                assert(is_rows_of(all_rows, nested_row(self.incoming(), index@))) by {
                    let row_map = nested_row(self.incoming(), index@);
                    assert(is_row_listing(rows@, row_map));
                    assert forall|p: int| 0 <= p < all_rows.len() implies row_map.dom().contains(
                        (#[trigger] all_rows[p]).0,
                    ) && distinct(all_rows[p].1) && (forall|x: NodeKey|
                        all_rows[p].1.contains(x) <==> row_map[all_rows[p].0].contains(x)) by {
                        assert(row_map.dom().contains(rows[p].0@));
                    }
                    assert forall|relation: Seq<char>|
                        row_map.dom().contains(relation) implies exists|p: int|
                        0 <= p < all_rows.len() && (#[trigger] all_rows[p]).0 == relation by {
                        let p = choose|p: int|
                            0 <= p < rows.len() && (#[trigger] rows[p]).0@ == relation;
                        assert(all_rows[p].0 == relation);
                    }
                }
                blocks = longer;
            }
            i += 1;
        }
        proof {
            assert forall|k: VertexKey| self.refs().dom().contains(k) implies exists|p: int|
                0 <= p < blocks.len() && (#[trigger] blocks[p]).0 == k by {
                let p = choose|p: int| 0 <= p < entries.len() && (#[trigger] entries[p]).0@ == k;
                assert(blocks[p].0 == k);
            }
            assert forall|p: int, q: int| 0 <= p < q < blocks.len() implies blocks[p].0
                != blocks[q].0 by {
                assert(entries[p].0@ != entries[q].0@);
            }
            assert(self.is_layout(blocks));
        }
        out
    }

    /// Lets the relations that a payload names wait.
    fn read_pending(
        block: &(ObjectRef, String, String),
        relation: &String,
        payload: &[char],
        pending: &mut Vec<(crate::ident::ObjectOrSet, ObjectRef, String)>,
    )
        ensures
            pending_view(final(pending)@) == pending_view(old(pending)@) + pending_of(
                (block.1@, block.2@),
                block.0@,
                relation@,
                tokens(payload@),
            ),
    {
        let ghost start = pending_view(pending@);
        let ghost blk: Block = (block.1@, block.2@);
        let ghost target = start + pending_of(blk, block.0@, relation@, tokens(payload@));
        let mut rest: &[char] = payload;
        let mut done = false;
        while !done
            invariant
                blk == (block.1@, block.2@),
                !done ==> target == pending_view(pending@) + pending_of(
                    blk,
                    block.0@,
                    relation@,
                    tokens(rest@),
                ),
                done ==> target == pending_view(pending@),
            decreases
                    (if done {
                        0
                    } else {
                        rest.len() + 1
                    }),
        {
            let i = find_separator(rest);
            let ghost before = pending_view(pending@);
            let ghost pieces = tokens(rest@);
            let token = if i < rest.len() {
                slice_subrange(rest, 0, i)
            } else {
                rest
            };
            let src = source_of(block.1.as_str(), block.2.as_str(), token);
            pending.push((src, block.0, relation.clone()));
            proof {
                assert(pending_view(pending@) =~= before.push((src@, block.0@, relation@)));
            }
            if i < rest.len() {
                let next = slice_subrange(rest, i + 2, rest.len());
                proof {
                    assert(pieces =~= seq![token@] + tokens(next@));
                    assert(pending_view(pending@) + pending_of(
                        blk,
                        block.0@,
                        relation@,
                        tokens(next@),
                    ) =~= before + pending_of(blk, block.0@, relation@, pieces));
                }
                rest = next;
            } else {
                proof {
                    assert(pieces =~= seq![rest@]);
                    assert(pending_view(pending@) =~= before + pending_of(
                        blk,
                        block.0@,
                        relation@,
                        pieces,
                    ));
                }
                done = true;
            }
        }
    }

    /// Adds the relations that waited, each from the number under which the
    /// object of its source is registered.
    fn link_pending(
        self,
        pending: &Vec<(crate::ident::ObjectOrSet, ObjectRef, String)>,
    ) -> (r: Option<Graph>)
        ensures
            r is Some <==> link(self.state(), pending_view(pending@)) is Some,
            r is Some ==> r->0.state() == link(self.state(), pending_view(pending@))->0,
    {
        let ghost initial = self.state();
        let mut graph = self;
        let ghost all = pending_view(pending@);
        let ghost target = link(initial, all);
        let mut k: usize = 0;
        assert(all.subrange(0, all.len() as int) =~= all);
        while k < pending.len()
            invariant
                k <= pending.len(),
                all == pending_view(pending@),
                initial == self.state(),
                target == link(initial, all),
                target == link(graph.state(), all.subrange(k as int, all.len() as int)),
            decreases pending.len() - k,
        {
            let ghost rest = all.subrange(k as int, all.len() as int);
            proof {
                assert(rest[0] == all[k as int]);
                assert(rest.drop_first() =~= all.subrange(k + 1, all.len() as int));
            }
            let item = &pending[k];
            let found = graph.get_node(item.0.namespace(), item.0.id());
            match found {
                None => {
                    proof {
                        let object = VertexKey {
                            namespace: rest[0].0.namespace,
                            id: rest[0].0.id,
                            relation: None,
                        };
                        assert(!graph.state().refs.dom().contains(object));
                        assert(link(graph.state(), rest) is None);
                    }
                    return None;
                },
                Some(object) => {
                    let src = match item.0.relation() {
                        Some(relation) => ObjectOrSet::Userset((object, Relation::new(relation))),
                        None => ObjectOrSet::Object(object),
                    };
                    graph.add_relation(src, ObjectRelation(item.1, Relation(item.2.clone())));
                },
            }
            k += 1;
        }
        Some(graph)
    }

    /// Reads a graph from a text. A header registers an object; a relation
    /// line inside a block names the sources of one relation on the object of
    /// the block. The relations are added once all objects are registered.
    /// There is no graph where a source names an object that the text does not
    /// register, or where the text registers more objects than there are numbers.
    pub fn from_file(text: &str) -> (r: Option<Graph>)
        ensures
            r is Some <==> loaded_graph(text@) is Some,
            r is Some ==> r->0.state() == loaded_graph(text@)->0,
    {
        let chars = to_chars(text);
        let mut graph = Graph::new();
        let mut current: Option<(ObjectRef, String, String)> = None;
        let mut pending: Vec<(crate::ident::ObjectOrSet, ObjectRef, String)> = Vec::new();
        let mut rest: &[char] = chars.as_slice();
        let ghost first = Loading { state: empty_state(), current: None, pending: Seq::empty() };
        proof {
            assert(pending_view(pending@) =~= Seq::<Pending>::empty());
        }
        while rest.len() > 0
            invariant
                first == (Loading { state: empty_state(), current: None, pending: Seq::empty() }),
                load_lines(
                    Loading {
                        state: graph.state(),
                        current: current_view(current),
                        pending: pending_view(pending@),
                    },
                    split_lines(rest@),
                ) == load_lines(first, split_lines(text@)),
            decreases rest.len(),
        {
            let n = find_char(rest, '\n');
            let ghost lines = split_lines(rest@);
            let ghost before = Loading {
                state: graph.state(),
                current: current_view(current),
                pending: pending_view(pending@),
            };
            let line: &[char];
            let next: &[char];
            if n < rest.len() {
                let mut cut = slice_subrange(rest, 0, n);
                if n > 0 && cut[n - 1] == '\r' {
                    cut = slice_subrange(cut, 0, n - 1);
                }
                line = cut;
                next = slice_subrange(rest, n + 1, rest.len());
                proof {
                    assert(line@ =~= strip_cr(rest@.subrange(0, n as int)));
                    assert(lines =~= seq![line@] + split_lines(next@));
                }
            } else {
                line = rest;
                next = slice_subrange(rest, 0, 0);
                proof {
                    assert(lines =~= seq![rest@]);
                }
            }
            proof {
                assert(lines[0] == line@);
                assert(lines.drop_first() =~= split_lines(next@));
            }
            let header = header_of(line);
            match header {
                Some(block) => {
                    if graph.counter == u32::MAX {
                        proof {
                            assert(load_line(before, line@) is None);
                            assert(load_lines(before, lines) is None);
                        }
                        return None;
                    }
                    let index = graph.add_node(Object::new(block.0.clone(), block.1.clone()));
                    current = Some((index, block.0, block.1));
                },
                None => {
                    let len = line.len();
                    let bracketed = len >= 2 && line[0] == '[' && line[len - 1] == ']';
                    let e = find_char(line, '=');
                    let l = find_char(line, '[');
                    let r = find_char(line, ']');
                    if !bracketed && e < l && l < r && r < len {
                        if let Some(block) = &current {
                            let relation = text_of(trim_slice(slice_subrange(line, 0, e)));
                            let payload = slice_subrange(line, l + 1, r);
                            Graph::read_pending(block, &relation, payload, &mut pending);
                        }
                    }
                },
            }
            proof {
                assert(load_line(before, line@) == Some(
                    Loading {
                        state: graph.state(),
                        current: current_view(current),
                        pending: pending_view(pending@),
                    },
                ));
            }
            rest = next;
        }
        graph.link_pending(&pending)
    }
}

} // verus!
