//! Reading a graph from a snapshot and writing one.

use vstd::prelude::*;
use vstd::slice::slice_subrange;
use vstd::string::StringExecFns;
use crate::format::Block;
use crate::format::entries_text;
use crate::format::entry_text;
use crate::format::header_text;
use crate::format::lemma_listed_sources;
use crate::format::lemma_vertex_order;
use crate::format::listed_sources;
use crate::format::lists_sources;
use crate::format::lists_vertices;
use crate::format::relation_text;
use crate::format::snapshot_text;
use crate::format::sorted_keys;
use crate::format::source_text;
use crate::format::sources_text;
use crate::ident::VertexKey;
use crate::ident::compare_keys;
use crate::ident::is_wildcard;
use crate::ident::key_lt;
use crate::ident::lemma_key_lt_asymmetric;
use crate::ident::lemma_key_lt_total;
use crate::ident::lemma_key_lt_transitive;
use crate::ident::same_key;
use crate::ident::same_text;
use crate::ident::wildcard_text;
use crate::model::has_vertex;
use crate::model::is_source;
use crate::model::is_target;
use crate::order::Sign;
use crate::format::block_after_line;
use crate::format::edges_after_line;
use crate::format::edges_after_lines;
use crate::format::edges_after_sources;
use crate::format::find_char;
use crate::format::find_separator;
use crate::format::loaded_edges;
use crate::format::parse_header;
use crate::format::parse_object;
use crate::format::parse_source;
use crate::format::split_lines;
use crate::format::strip_cr;
use crate::format::tokens;
use crate::format::trim_slice;
use crate::ident::Object;
use crate::ident::ObjectOrSet;
use crate::ident::RSet;
use crate::relation_graph::RelationGraph;
use crate::text::text_of;
use crate::text::to_chars;

verus! {

/// The block that is open while a snapshot is read, as texts.
pub open spec fn block_view(current: Option<(String, String)>) -> Option<Block> {
    match current {
        Some(block) => Some((block.0@, block.1@)),
        None => None,
    }
}

/// The namespace and id that a reference names inside a block.
fn object_parts(namespace: &str, id: &str, text: &[char]) -> (r: (String, String))
    ensures
        (r.0@, r.1@) == parse_object((namespace@, id@), text@),
{
    let c = find_char(text, ':');
    if c < text.len() {
        (text_of(slice_subrange(text, 0, c)), text_of(slice_subrange(text, c + 1, text.len())))
    } else {
        (namespace.to_owned(), id.to_owned())
    }
}

/// The source that a piece of a payload names inside a block.
pub fn source_of(namespace: &str, id: &str, token: &[char]) -> (r: ObjectOrSet)
    ensures
        r@ == parse_source((namespace@, id@), token@),
{
    let h = find_char(token, '#');
    if h < token.len() {
        let parts = object_parts(namespace, id, slice_subrange(token, 0, h));
        let relation = text_of(slice_subrange(token, h + 1, token.len()));
        ObjectOrSet::RSet(RSet::new(parts.0, parts.1, relation))
    } else {
        let parts = object_parts(namespace, id, token);
        ObjectOrSet::Object(Object::new(parts.0, parts.1))
    }
}

/// The block that a header line opens, if the line is one.
pub fn header_of(line: &[char]) -> (r: Option<(String, String)>)
    ensures
        block_view(r) == parse_header(line@),
{
    let n = line.len();
    if n >= 2 && line[0] == '[' && line[n - 1] == ']' {
        let inner = slice_subrange(line, 1, n - 1);
        let c = find_char(inner, ':');
        if c < inner.len() {
            let rest = slice_subrange(inner, c + 1, inner.len());
            let c2 = find_char(rest, ':');
            Some((text_of(slice_subrange(inner, 0, c)), text_of(slice_subrange(rest, 0, c2))))
        } else {
            None
        }
    } else {
        None
    }
}

impl RelationGraph {
    /// Inserts the sources that a payload names, each with `dst` as its destination.
    fn read_sources(&mut self, namespace: &str, id: &str, dst: &RSet, payload: &[char])
        ensures
            final(self)@ == edges_after_sources(
                old(self)@,
                (namespace@, id@),
                dst@,
                tokens(payload@),
            ),
    {
        let ghost block: Block = (namespace@, id@);
        let ghost target = edges_after_sources(self@, block, dst@, tokens(payload@));
        let mut rest: &[char] = payload;
        let mut done = false;
        while !done
            invariant
                block == (namespace@, id@),
                !done ==> target == edges_after_sources(self@, block, dst@, tokens(rest@)),
                done ==> target == self@,
            decreases
                    (if done {
                        0
                    } else {
                        rest.len() + 1
                    }),
        {
            let i = find_separator(rest);
            let ghost before = self@;
            let ghost pieces = tokens(rest@);
            if i < rest.len() {
                let token = slice_subrange(rest, 0, i);
                let src = source_of(namespace, id, token);
                self.insert(&src, dst);
                let next = slice_subrange(rest, i + 2, rest.len());
                proof {
                    assert(pieces =~= seq![token@] + tokens(next@));
                    assert(pieces[0] == token@);
                    assert(pieces.drop_first() =~= tokens(next@));
                }
                rest = next;
            } else {
                let src = source_of(namespace, id, rest);
                self.insert(&src, dst);
                proof {
                    assert(pieces =~= seq![rest@]);
                    assert(pieces[0] == rest@);
                    assert(pieces.drop_first().len() == 0);
                    assert(edges_after_sources(self@, block, dst@, pieces.drop_first()) == self@);
                }
                done = true;
            }
        }
    }

    /// Reads one line of a snapshot. A header opens a block; a relation line
    /// inside a block inserts its sources; any other line is passed over.
    /// Returns the block that is open after the line.
    pub fn read_line(&mut self, current: Option<(String, String)>, line: &[char]) -> (next: Option<
        (String, String),
    >)
        ensures
            final(self)@ == edges_after_line(old(self)@, block_view(current), line@),
            block_view(next) == block_after_line(block_view(current), line@),
    {
        let header = header_of(line);
        if header.is_some() {
            return header;
        }
        let n = line.len();
        if n >= 2 && line[0] == '[' && line[n - 1] == ']' {
            return current;
        }
        let e = find_char(line, '=');
        let l = find_char(line, '[');
        let r = find_char(line, ']');
        if e < l && l < r && r < n {
            if let Some(block) = &current {
                let relation = text_of(trim_slice(slice_subrange(line, 0, e)));
                let payload = trim_slice(slice_subrange(line, l + 1, r));
                if payload.len() > 0 {
                    let dst = RSet::new(block.0.clone(), block.1.clone(), relation);
                    self.read_sources(block.0.as_str(), block.1.as_str(), &dst, payload);
                }
            }
        }
        current
    }

    /// Reads one line of a snapshot, given as a string.
    pub fn apply_line(&mut self, current: Option<(String, String)>, line: &str) -> (next: Option<
        (String, String),
    >)
        ensures
            final(self)@ == edges_after_line(old(self)@, block_view(current), line@),
            block_view(next) == block_after_line(block_view(current), line@),
    {
        let chars = to_chars(line);
        self.read_line(current, chars.as_slice())
    }

    /// Reads a graph from a snapshot. Lines that are neither a header nor a
    /// relation line inside a block are passed over.
    pub fn read_savefile(text: &str) -> (graph: Self)
        ensures
            graph@ == loaded_edges(text@),
    {
        let chars = to_chars(text);
        let mut graph = RelationGraph::new();
        let mut current: Option<(String, String)> = None;
        let mut rest: &[char] = chars.as_slice();
        while rest.len() > 0
            invariant
                edges_after_lines(graph@, block_view(current), split_lines(rest@)) == loaded_edges(
                    text@,
                ),
            decreases rest.len(),
        {
            let n = find_char(rest, '\n');
            let ghost lines = split_lines(rest@);
            if n < rest.len() {
                let mut line = slice_subrange(rest, 0, n);
                if n > 0 && line[n - 1] == '\r' {
                    line = slice_subrange(line, 0, n - 1);
                }
                let next = slice_subrange(rest, n + 1, rest.len());
                proof {
                    assert(line@ =~= strip_cr(rest@.subrange(0, n as int)));
                    assert(lines =~= seq![line@] + split_lines(next@));
                    assert(lines[0] == line@);
                    assert(lines.drop_first() =~= split_lines(next@));
                }
                current = graph.read_line(current, line);
                rest = next;
            } else {
                let next = slice_subrange(rest, 0, 0);
                proof {
                    assert(lines =~= seq![rest@]);
                    assert(lines[0] == rest@);
                    assert(lines.drop_first() =~= split_lines(next@));
                }
                current = graph.read_line(current, rest);
                rest = next;
            }
        }
        graph
    }
}

/// The keys of a sequence of identifiers.
pub open spec fn keys_of(s: Seq<ObjectOrSet>) -> Seq<VertexKey> {
    Seq::new(s.len(), |i: int| s[i]@)
}

/// Writes a source as it stands inside the block of `v`.
fn write_source(out: &mut String, v: &ObjectOrSet, src: &ObjectOrSet)
    ensures
        final(out)@ == old(out)@ + source_text(v@, src@),
{
    let ghost start = out@;
    if same_text(v.namespace(), src.namespace()) && same_text(v.id(), src.id()) {
        proof {
            reveal_strlit("self");
            assert("self"@ =~= seq!['s', 'e', 'l', 'f']);
        }
        out.append("self");
    } else {
        proof {
            reveal_strlit(":");
            assert(":"@ =~= seq![':']);
        }
        out.append(src.namespace());
        out.append(":");
        out.append(src.id());
        assert(out@ =~= start + (src@.namespace + seq![':'] + src@.id));
    }
    if let Some(relation) = src.relation() {
        proof {
            reveal_strlit("#");
            assert("#"@ =~= seq!['#']);
        }
        out.append("#");
        out.append(relation);
        assert(out@ =~= start + source_text(v@, src@));
    }
}

/// Writes the sources of one line, with a comma and a blank between them.
fn write_sources(out: &mut String, v: &ObjectOrSet, sources: &Vec<ObjectOrSet>)
    ensures
        final(out)@ == old(out)@ + sources_text(v@, keys_of(sources@)),
{
    let ghost start = out@;
    let ghost keys = keys_of(sources@);
    let mut k: usize = 0;
    assert(keys.take(0) =~= Seq::<VertexKey>::empty());
    while k < sources.len()
        invariant
            k <= sources.len(),
            keys == keys_of(sources@),
            out@ == start + sources_text(v@, keys.take(k as int)),
        decreases sources.len() - k,
    {
        let ghost before = keys.take(k as int);
        let ghost after = keys.take(k + 1);
        proof {
            assert(after.drop_last() =~= before);
            assert(after.last() == sources[k as int]@);
        }
        if k > 0 {
            proof {
                reveal_strlit(", ");
                assert(", "@ =~= seq![',', ' ']);
            }
            out.append(", ");
        }
        write_source(out, v, &sources[k]);
        assert(out@ =~= start + sources_text(v@, after));
        k += 1;
    }
    assert(keys.take(sources.len() as int) =~= keys);
}

/// Writes the header of the block of `v`, with the empty line before it.
fn write_header(out: &mut String, v: &ObjectOrSet)
    ensures
        final(out)@ == old(out)@ + header_text(v@),
{
    let ghost start = out@;
    proof {
        reveal_strlit("\n[");
        reveal_strlit(":");
        reveal_strlit("]\n");
        assert("\n["@ =~= seq!['\n', '[']);
        assert(":"@ =~= seq![':']);
        assert("]\n"@ =~= seq![']', '\n']);
    }
    out.append("\n[");
    out.append(v.namespace());
    out.append(":");
    out.append(v.id());
    out.append("]\n");
    assert(out@ =~= start + header_text(v@));
}

impl RelationGraph {
    /// The vertices of the graph, each once, in their order.
    pub fn vertices(&self) -> (r: Vec<ObjectOrSet>)
        ensures
            lists_vertices(self@, keys_of(r@)),
    {
        proof {
            use_type_invariant(self);
        }
        let mut out: Vec<ObjectOrSet> = Vec::new();
        let nf = self.forward.len();
        let nb = self.backward.len();
        let mut i: usize = 0;
        let mut j: usize = 0;
        while i < nf || j < nb
            invariant
                self.wf(),
                nf == self.forward.pairs().len(),
                nb == self.backward.pairs().len(),
                i <= nf,
                j <= nb,
                sorted_keys(keys_of(out@)),
                forall|k: int| 0 <= k < out.len() ==> has_vertex(self@, (#[trigger] out[k])@),
                forall|a: int|
                    0 <= a < i ==> keys_of(out@).contains((#[trigger] self.forward.pairs()[a]).0),
                forall|b: int|
                    0 <= b < j ==> keys_of(out@).contains((#[trigger] self.backward.pairs()[b]).0),
                out.len() > 0 ==> forall|a: int|
                    i <= a < nf ==> !key_lt(
                        (#[trigger] self.forward.pairs()[a]).0,
                        out[out.len() - 1]@,
                    ),
                out.len() > 0 ==> forall|b: int|
                    j <= b < nb ==> !key_lt(
                        (#[trigger] self.backward.pairs()[b]).0,
                        out[out.len() - 1]@,
                    ),
            decreases (nf - i) + (nb - j),
        {
            let take_forward = if i < nf && j < nb {
                compare_keys(self.forward.first_at(i), self.backward.first_at(j)) != Sign::Greater
            } else {
                i < nf
            };
            let cand = if take_forward {
                self.forward.first_at(i)
            } else {
                self.backward.first_at(j)
            };
            let ghost c = cand@;
            let ghost old_keys = keys_of(out@);
            proof {
                if take_forward {
                    let e = self.forward.pairs()[i as int];
                    assert(self.forward.pairs().contains(e));
                    assert(self@.contains((c, e.1)));
                    assert(is_source(self@, c));
                } else {
                    let e = self.backward.pairs()[j as int];
                    assert(self.backward.pairs().contains(e));
                    assert(self.backward@.contains(e));
                    assert(self@.contains((e.1, c)));
                    assert(is_target(self@, c));
                }
                // whatever is left in either direction does not come before the candidate
                assert forall|a: int| i <= a < nf implies !key_lt(
                    (#[trigger] self.forward.pairs()[a]).0,
                    c,
                ) by {
                    self.forward.lemma_firsts_monotone(i as int, a);
                    let first = self.forward.pairs()[i as int].0;
                    lemma_key_lt_total(first, c);
                    lemma_key_lt_asymmetric(first, c);
                    if key_lt(self.forward.pairs()[a].0, c) && first != c {
                        lemma_key_lt_transitive(self.forward.pairs()[a].0, c, first);
                    }
                }
                assert forall|b: int| j <= b < nb implies !key_lt(
                    (#[trigger] self.backward.pairs()[b]).0,
                    c,
                ) by {
                    self.backward.lemma_firsts_monotone(j as int, b);
                    let first = self.backward.pairs()[j as int].0;
                    lemma_key_lt_total(first, c);
                    lemma_key_lt_asymmetric(first, c);
                    if key_lt(self.backward.pairs()[b].0, c) && first != c {
                        lemma_key_lt_transitive(self.backward.pairs()[b].0, c, first);
                    }
                }
            }
            let fresh = out.len() == 0 || !same_key(&out[out.len() - 1], cand);
            if fresh {
                let ghost last = if out.len() > 0 {
                    out[out.len() - 1]@
                } else {
                    c
                };
                proof {
                    if out.len() > 0 {
                        lemma_key_lt_total(last, c);
                        assert(key_lt(last, c));
                    }
                }
                out.push(cand.clone());
                proof {
                    let keys = keys_of(out@);
                    assert(keys =~= old_keys.push(c));
                    assert forall|x: int, y: int| 0 <= x < y < keys.len() implies key_lt(
                        #[trigger] keys[x],
                        #[trigger] keys[y],
                    ) by {
                        if y < old_keys.len() {
                            assert(key_lt(old_keys[x], old_keys[y]));
                        } else if x < old_keys.len() - 1 {
                            assert(key_lt(old_keys[x], old_keys[old_keys.len() - 1]));
                            lemma_key_lt_transitive(keys[x], last, c);
                        }
                    }
                    assert(keys[old_keys.len() as int] == c);
                    assert(keys.contains(c));
                }
            } else {
                assert(old_keys[out.len() - 1] == c);
                assert(old_keys.contains(c));
            }
            proof {
                let keys = keys_of(out@);
                assert forall|v: VertexKey| old_keys.contains(v) implies keys.contains(v) by {
                    let x = choose|x: int| 0 <= x < old_keys.len() && old_keys[x] == v;
                    assert(keys[x] == v);
                }
                assert(out[out.len() - 1]@ == c);
            }
            if take_forward {
                i += 1;
            } else {
                j += 1;
            }
        }
        proof {
            let keys = keys_of(out@);
            assert forall|v: VertexKey| #[trigger] keys.contains(v) <==> has_vertex(self@, v) by {
                if keys.contains(v) {
                    let x = choose|x: int| 0 <= x < keys.len() && keys[x] == v;
                    assert(has_vertex(self@, out[x]@));
                }
                if is_source(self@, v) {
                    let w = choose|w: VertexKey| self@.contains((v, w));
                    assert(self.forward.pairs().contains((v, w)));
                    let a = choose|a: int|
                        0 <= a < self.forward.pairs().len() && self.forward.pairs()[a] == (v, w);
                    assert(keys.contains(self.forward.pairs()[a].0));
                }
                if is_target(self@, v) {
                    let w = choose|w: VertexKey| self@.contains((w, v));
                    assert(self.backward@.contains((v, w)));
                    assert(self.backward.pairs().contains((v, w)));
                    let b = choose|b: int|
                        0 <= b < self.backward.pairs().len() && self.backward.pairs()[b] == (v, w);
                    assert(keys.contains(self.backward.pairs()[b].0));
                }
            }
        }
        out
    }

    /// The vertices that point to `v`, in their order, but for those with the
    /// wildcard as their id: the sources that a snapshot names for `v`.
    pub fn sources_of(&self, v: &ObjectOrSet) -> (r: Vec<ObjectOrSet>)
        ensures
            lists_sources(self@, v@, keys_of(r@)),
    {
        proof {
            use_type_invariant(self);
        }
        let mut out: Vec<ObjectOrSet> = Vec::new();
        let found = self.backward.find_run(v);
        if found.is_none() {
            proof {
                let keys = keys_of(out@);
                assert forall|u: VertexKey| #[trigger]
                    keys.contains(u) <==> self@.contains((u, v@)) && u.id != wildcard_text() by {
                    if self@.contains((u, v@)) {
                        assert(self.backward@.contains((v@, u)));
                        assert(self.backward.pairs().contains((v@, u)));
                    }
                }
            }
            return out;
        }
        let p = found.unwrap();
        let n = self.backward.len();
        let mut q: usize = p;
        while q < n && same_key(self.backward.first_at(q), v)
            invariant
                self.wf(),
                n == self.backward.pairs().len(),
                self.backward.is_slot(p as int, v@),
                p <= q <= n,
                forall|a: int| p <= a < q ==> (#[trigger] self.backward.pairs()[a]).0 == v@,
                sorted_keys(keys_of(out@)),
                forall|k: int|
                    0 <= k < out.len() ==> (#[trigger] out[k])@.id != wildcard_text()
                        && exists|a: int|
                        p <= a < q && (#[trigger] self.backward.pairs()[a]).1 == out[k]@,
                forall|a: int|
                    p <= a < q && (#[trigger] self.backward.pairs()[a]).1.id != wildcard_text()
                        ==> keys_of(out@).contains(self.backward.pairs()[a].1),
            decreases n - q,
        {
            let src = self.backward.second_at(q);
            let ghost old_keys = keys_of(out@);
            if !is_wildcard(src.id()) {
                proof {
                    assert forall|k: int| 0 <= k < out.len() implies key_lt(
                        (#[trigger] out[k])@,
                        src@,
                    ) by {
                        let a = choose|a: int|
                            p <= a < q && (#[trigger] self.backward.pairs()[a]).1 == out[k]@;
                        assert(crate::index::pair_lt(
                            self.backward.pairs()[a],
                            self.backward.pairs()[q as int],
                        ));
                        lemma_key_lt_asymmetric(v@, v@);
                    }
                }
                out.push(src.clone());
                proof {
                    let keys = keys_of(out@);
                    assert(keys =~= old_keys.push(src@));
                    assert forall|x: int, y: int| 0 <= x < y < keys.len() implies key_lt(
                        #[trigger] keys[x],
                        #[trigger] keys[y],
                    ) by {
                        if y < old_keys.len() {
                            assert(key_lt(old_keys[x], old_keys[y]));
                        } else {
                            assert(key_lt(out[x]@, src@));
                        }
                    }
                    assert(keys[old_keys.len() as int] == src@);
                    assert(keys.contains(src@));
                }
            }
            proof {
                let keys = keys_of(out@);
                assert forall|u: VertexKey| old_keys.contains(u) implies keys.contains(u) by {
                    let x = choose|x: int| 0 <= x < old_keys.len() && old_keys[x] == u;
                    assert(keys[x] == u);
                }
                assert forall|k: int| 0 <= k < out.len() implies exists|a: int|
                    p <= a < q + 1 && (#[trigger] self.backward.pairs()[a]).1 == (
                    #[trigger] out[k])@ by {
                    if k < old_keys.len() {
                        let a = choose|a: int|
                            p <= a < q && (#[trigger] self.backward.pairs()[a]).1 == out[k]@;
                        assert(p <= a < q + 1);
                    } else {
                        assert(self.backward.pairs()[q as int].1 == out[k]@);
                    }
                }
            }
            q += 1;
        }
        proof {
            let keys = keys_of(out@);
            assert forall|u: VertexKey| #[trigger]
                keys.contains(u) <==> self@.contains((u, v@)) && u.id != wildcard_text() by {
                if keys.contains(u) {
                    let k = choose|k: int| 0 <= k < keys.len() && keys[k] == u;
                    assert(out[k]@ == u);
                    let a = choose|a: int|
                        p <= a < q && (#[trigger] self.backward.pairs()[a]).1 == out[k]@;
                    let e = self.backward.pairs()[a];
                    assert(self.backward.pairs().contains(e));
                    assert(self.backward@.contains(e));
                    assert(self@.contains((e.1, e.0)));
                }
                if self@.contains((u, v@)) && u.id != wildcard_text() {
                    assert(self.backward@.contains((v@, u)));
                    assert(self.backward.pairs().contains((v@, u)));
                    let a = choose|a: int|
                        0 <= a < self.backward.pairs().len() && self.backward.pairs()[a] == (
                            v@,
                            u,
                        );
                    if a < p {
                        assert(self.backward.pairs()[a].0 != v@);
                    }
                    if a >= q {
                        self.backward.lemma_firsts_monotone(p as int, q as int);
                        self.backward.lemma_firsts_monotone(q as int, a);
                        lemma_key_lt_total(self.backward.pairs()[q as int].0, v@);
                    }
                    assert(keys.contains(self.backward.pairs()[a].1));
                }
            }
        }
        out
    }

    /// Writes the graph as a snapshot. The vertices come in their order,
    /// grouped in blocks by namespace and id; each set has a line with the
    /// vertices that point to it. Sources with the wildcard as their id are
    /// left out: reading the snapshot brings them back.
    pub fn write_savefile(&self) -> (text: String)
        ensures
            text@ == snapshot_text(self@),
    {
        proof {
            use_type_invariant(self);
        }
        let order = self.vertices();
        let ghost keys = keys_of(order@);
        let mut out = String::new();
        let mut k: usize = 0;
        while k < order.len()
            invariant
                self.wf(),
                k <= order.len(),
                keys == keys_of(order@),
                out@ == entries_text(self@, keys, k as nat),
            decreases order.len() - k,
        {
            let v = &order[k];
            let ghost start = out@;
            let new_block = k == 0 || !(same_text(order[k - 1].namespace(), v.namespace())
                && same_text(order[k - 1].id(), v.id()));
            if new_block {
                write_header(&mut out, v);
            }
            let ghost headed = out@;
            if let Some(relation) = v.relation() {
                let sources = self.sources_of(v);
                proof {
                    lemma_listed_sources(self@, v@, keys_of(sources@));
                    reveal_strlit(" = [ ");
                    reveal_strlit(" ]\n");
                    assert(" = [ "@ =~= seq![' ', '=', ' ', '[', ' ']);
                    assert(" ]\n"@ =~= seq![' ', ']', '\n']);
                }
                out.append(relation);
                out.append(" = [ ");
                write_sources(&mut out, v, &sources);
                out.append(" ]\n");
                assert(out@ =~= headed + relation_text(v@, listed_sources(self@, v@)));
            }
            assert(out@ =~= start + entry_text(self@, keys, k as int));
            k += 1;
        }
        proof {
            lemma_vertex_order(self@, keys);
        }
        out
    }
}

} // verus!
