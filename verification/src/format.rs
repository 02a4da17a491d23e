//! The grammar of the snapshot: what a text means, line by line.
//!
//! A snapshot is a sequence of lines. A line `[namespace:id]` opens a block; a
//! line `relation = [ source, source ]` inside a block names the sources of one
//! set of that block. Every other line is passed over.

use vstd::prelude::*;
use vstd::slice::slice_subrange;
use crate::ident::VertexKey;
use crate::ident::key_lt;
use crate::ident::lemma_key_lt_asymmetric;
use crate::ident::wildcard_text;
use crate::index::Edge;
use crate::model::edges_after_insert;
use crate::model::has_vertex;

verus! {

/// The characters with the Unicode property White_Space, which `str::trim` takes off.
pub open spec fn is_space(c: char) -> bool {
    let n = c as u32;
    ||| 0x9 <= n <= 0xd
    ||| n == 0x20
    ||| n == 0x85
    ||| n == 0xa0
    ||| n == 0x1680
    ||| 0x2000 <= n <= 0x200a
    ||| n == 0x2028
    ||| n == 0x2029
    ||| n == 0x202f
    ||| n == 0x205f
    ||| n == 0x3000
}

/// Whether a character is white space.
pub fn is_space_char(c: char) -> (r: bool)
    ensures
        r == is_space(c),
{
    let n: u32 = c as u32;
    (0x9 <= n && n <= 0xd) || n == 0x20 || n == 0x85 || n == 0xa0 || n == 0x1680 || (0x2000 <= n
        && n <= 0x200a) || n == 0x2028 || n == 0x2029 || n == 0x202f || n == 0x205f || n == 0x3000
}

/// The position of the first `c` in `s`, or the length of `s` where there is none.
pub open spec fn first_index(s: Seq<char>, c: char) -> int
    decreases s.len(),
{
    if s.len() == 0 {
        0
    } else if s[0] == c {
        0
    } else {
        1 + first_index(s.drop_first(), c)
    }
}

/// The first `c` stands at `i` when no `c` stands before `i` and `s` ends or has `c` there.
pub proof fn lemma_first_index(s: Seq<char>, c: char, i: int)
    requires
        0 <= i <= s.len(),
        forall|j: int| 0 <= j < i ==> s[j] != c,
        i < s.len() ==> s[i] == c,
    ensures
        first_index(s, c) == i,
    decreases s.len(),
{
    if i > 0 {
        let rest = s.drop_first();
        assert forall|j: int| 0 <= j < i - 1 implies rest[j] != c by {
            assert(rest[j] == s[j + 1]);
        }
        lemma_first_index(rest, c, i - 1);
    }
}

/// The first `c` stands within `s` or at its end, with no `c` before it.
pub proof fn lemma_first_index_found(s: Seq<char>, c: char)
    ensures
        0 <= first_index(s, c) <= s.len(),
        forall|j: int| 0 <= j < first_index(s, c) ==> s[j] != c,
        first_index(s, c) < s.len() ==> s[first_index(s, c)] == c,
    decreases s.len(),
{
    if s.len() > 0 && s[0] != c {
        let rest = s.drop_first();
        lemma_first_index_found(rest, c);
        assert forall|j: int| 0 <= j < first_index(s, c) implies s[j] != c by {
            if j > 0 {
                assert(rest[j - 1] == s[j]);
            }
        }
    }
}

/// Finds the first `c` in `s`.
pub fn find_char(s: &[char], c: char) -> (i: usize)
    ensures
        i == first_index(s@, c),
        i <= s.len(),
{
    let mut i: usize = 0;
    while i < s.len() && s[i] != c
        invariant
            i <= s.len(),
            forall|j: int| 0 <= j < i ==> s@[j] != c,
        decreases s.len() - i,
    {
        i += 1;
    }
    proof {
        lemma_first_index(s@, c, i as int);
    }
    i
}

/// The position of the first comma that a blank follows, or the length of `s`
/// where there is none.
pub open spec fn first_separator(s: Seq<char>) -> int
    decreases s.len(),
{
    if s.len() < 2 {
        s.len() as int
    } else if s[0] == ',' && s[1] == ' ' {
        0
    } else {
        1 + first_separator(s.drop_first())
    }
}

/// A comma with a blank behind it stands at `i`.
pub open spec fn separator_at(s: Seq<char>, i: int) -> bool {
    0 <= i && i + 1 < s.len() && s[i] == ',' && s[i + 1] == ' '
}

/// The first separator stands at `i` when none stands before `i` and `s` ends or has one there.
pub proof fn lemma_first_separator(s: Seq<char>, i: int)
    requires
        0 <= i <= s.len(),
        forall|j: int| 0 <= j < i ==> !separator_at(s, j),
        i < s.len() ==> separator_at(s, i),
    ensures
        first_separator(s) == i,
    decreases s.len(),
{
    if s.len() < 2 {
        if i < s.len() {
            assert(separator_at(s, i));
        }
    } else if i == 0 {
        assert(separator_at(s, 0));
    } else {
        assert(!separator_at(s, 0));
        let rest = s.drop_first();
        assert forall|j: int| 0 <= j < i - 1 implies !separator_at(rest, j) by {
            assert(!separator_at(s, j + 1));
            if j + 1 < rest.len() {
                assert(rest[j] == s[j + 1]);
                assert(rest[j + 1] == s[j + 2]);
            }
        }
        if i - 1 < rest.len() {
            assert(rest[i - 1] == s[i]);
            assert(rest[i] == s[i + 1]);
        }
        lemma_first_separator(rest, i - 1);
    }
}

/// The first separator stands within `s` or at its end, with none before it.
pub proof fn lemma_first_separator_found(s: Seq<char>)
    ensures
        0 <= first_separator(s) <= s.len(),
        forall|j: int| 0 <= j < first_separator(s) ==> !separator_at(s, j),
        first_separator(s) < s.len() ==> separator_at(s, first_separator(s)),
    decreases s.len(),
{
    if s.len() >= 2 && !(s[0] == ',' && s[1] == ' ') {
        let rest = s.drop_first();
        lemma_first_separator_found(rest);
        let k = first_separator(rest);
        assert forall|j: int| 0 <= j < first_separator(s) implies !separator_at(s, j) by {
            if j > 0 {
                assert(!separator_at(rest, j - 1));
                if j + 1 < s.len() {
                    assert(rest[j - 1] == s[j]);
                    assert(rest[j] == s[j + 1]);
                }
            }
        }
        if k < rest.len() {
            assert(rest[k] == s[k + 1]);
            assert(rest[k + 1] == s[k + 2]);
        }
    }
}

/// Finds the first comma that a blank follows.
pub fn find_separator(s: &[char]) -> (i: usize)
    ensures
        i == first_separator(s@),
        i <= s.len(),
        i < s.len() ==> i + 2 <= s.len(),
{
    let n = s.len();
    let mut i: usize = 0;
    while i < n && !(i + 1 < n && s[i] == ',' && s[i + 1] == ' ')
        invariant
            n == s.len(),
            i <= n,
            forall|j: int| 0 <= j < i ==> !separator_at(s@, j),
        decreases n - i,
    {
        i += 1;
    }
    proof {
        lemma_first_separator(s@, i as int);
    }
    i
}

/// `s` without the white space at its start.
pub open spec fn trim_start(s: Seq<char>) -> Seq<char>
    decreases s.len(),
{
    if s.len() > 0 && is_space(s[0]) {
        trim_start(s.drop_first())
    } else {
        s
    }
}

/// `s` without the white space at its end.
pub open spec fn trim_end(s: Seq<char>) -> Seq<char>
    decreases s.len(),
{
    if s.len() > 0 && is_space(s.last()) {
        trim_end(s.drop_last())
    } else {
        s
    }
}

/// `s` without the white space at its start and at its end.
pub open spec fn trim(s: Seq<char>) -> Seq<char> {
    trim_end(trim_start(s))
}

/// The slice without the white space at its start and at its end.
pub fn trim_slice(s: &[char]) -> (r: &[char])
    ensures
        r@ == trim(s@),
{
    let n = s.len();
    let mut lo: usize = 0;
    assert(s@.subrange(0, n as int) =~= s@);
    while lo < n && is_space_char(s[lo])
        invariant
            n == s.len(),
            lo <= n,
            trim_start(s@) == trim_start(s@.subrange(lo as int, n as int)),
        decreases n - lo,
    {
        assert(s@.subrange(lo as int, n as int).drop_first() =~= s@.subrange(lo + 1, n as int));
        lo += 1;
    }
    let ghost front = s@.subrange(lo as int, n as int);
    assert(trim_start(front) == front);
    let mut hi: usize = n;
    while hi > lo && is_space_char(s[hi - 1])
        invariant
            n == s.len(),
            lo <= hi <= n,
            front == s@.subrange(lo as int, n as int),
            trim_end(front) == trim_end(s@.subrange(lo as int, hi as int)),
        decreases hi - lo,
    {
        assert(s@.subrange(lo as int, hi as int).drop_last() =~= s@.subrange(
            lo as int,
            hi - 1,
        ));
        hi -= 1;
    }
    slice_subrange(s, lo, hi)
}

/// A line without the carriage return before its line feed.
pub open spec fn strip_cr(line: Seq<char>) -> Seq<char> {
    if line.len() > 0 && line.last() == '\r' {
        line.drop_last()
    } else {
        line
    }
}

/// The lines of a text. A line ends with a line feed, or with a carriage
/// return and a line feed; what follows the last line feed is a line of its
/// own unless it is empty.
pub open spec fn split_lines(text: Seq<char>) -> Seq<Seq<char>>
    decreases text.len(),
{
    if text.len() == 0 {
        Seq::<Seq<char>>::empty()
    } else {
        let n = first_index(text, '\n');
        if 0 <= n < text.len() {
            seq![strip_cr(text.subrange(0, n))] + split_lines(
                text.subrange(n + 1, text.len() as int),
            )
        } else {
            seq![text]
        }
    }
}

/// The pieces of `s` between its separators, each a comma and a blank.
pub open spec fn tokens(s: Seq<char>) -> Seq<Seq<char>>
    decreases s.len(),
{
    let i = first_separator(s);
    if 0 <= i && i + 2 <= s.len() {
        seq![s.subrange(0, i)] + tokens(s.subrange(i + 2, s.len() as int))
    } else {
        seq![s]
    }
}

/// The sources that the text between the brackets names: none where it is
/// empty, else one for each of its pieces.
pub open spec fn payload_tokens(payload: Seq<char>) -> Seq<Seq<char>> {
    if payload.len() == 0 {
        Seq::<Seq<char>>::empty()
    } else {
        tokens(payload)
    }
}

/// A block: the namespace and id that the lines below a header speak of.
pub type Block = (Seq<char>, Seq<char>);

/// The block that a header line opens: the line stands in brackets, the
/// namespace ends at its first colon, the id at the next colon or at the
/// closing bracket. A line in brackets without a colon opens nothing.
pub open spec fn parse_header(line: Seq<char>) -> Option<Block> {
    if is_bracketed(line) {
        let inner = line.subrange(1, line.len() - 1);
        let c = first_index(inner, ':');
        if 0 <= c < inner.len() {
            let rest = inner.subrange(c + 1, inner.len() as int);
            let c2 = first_index(rest, ':');
            Some((inner.subrange(0, c), rest.subrange(0, c2)))
        } else {
            None
        }
    } else {
        None
    }
}

/// The line starts with an opening and ends with a closing bracket.
pub open spec fn is_bracketed(line: Seq<char>) -> bool {
    line.len() >= 2 && line[0] == '[' && line.last() == ']'
}

/// The relation and the text between the brackets of a relation line: the
/// line is not in brackets and holds `=`, `[` and `]`, first occurring in that
/// order. The relation is what stands before `=`, the payload what stands
/// between the brackets, both without white space around them.
pub open spec fn parse_relation(line: Seq<char>) -> Option<(Seq<char>, Seq<char>)> {
    let e = first_index(line, '=');
    let l = first_index(line, '[');
    let r = first_index(line, ']');
    if !is_bracketed(line) && 0 <= e < l && l < r < line.len() {
        Some((trim(line.subrange(0, e)), trim(line.subrange(l + 1, r))))
    } else {
        None
    }
}

/// The namespace and id that a reference names: what stands before and after
/// its first colon, or the block where it has no colon.
pub open spec fn parse_object(block: Block, text: Seq<char>) -> Block {
    let c = first_index(text, ':');
    if 0 <= c < text.len() {
        (text.subrange(0, c), text.subrange(c + 1, text.len() as int))
    } else {
        block
    }
}

/// The source that a piece of the payload names: a set where it holds `#`,
/// with the relation behind the first `#`, else an object.
pub open spec fn parse_source(block: Block, token: Seq<char>) -> VertexKey {
    let h = first_index(token, '#');
    if 0 <= h < token.len() {
        let (namespace, id) = parse_object(block, token.subrange(0, h));
        VertexKey { namespace, id, relation: Some(token.subrange(h + 1, token.len() as int)) }
    } else {
        let (namespace, id) = parse_object(block, token);
        VertexKey { namespace, id, relation: None }
    }
}

/// The set of a block that a relation line speaks of.
pub open spec fn block_set(block: Block, relation: Seq<char>) -> VertexKey {
    VertexKey { namespace: block.0, id: block.1, relation: Some(relation) }
}

/// The edges after each of the sources was inserted, in turn, with `dst` as its destination.
pub open spec fn edges_after_sources(
    edges: Set<Edge>,
    block: Block,
    dst: VertexKey,
    sources: Seq<Seq<char>>,
) -> Set<Edge>
    decreases sources.len(),
{
    if sources.len() == 0 {
        edges
    } else {
        edges_after_sources(
            edges_after_insert(edges, parse_source(block, sources[0]), dst),
            block,
            dst,
            sources.drop_first(),
        )
    }
}

/// The block that is open after a line: the one that a header opens, else the one before.
pub open spec fn block_after_line(current: Option<Block>, line: Seq<char>) -> Option<Block> {
    match parse_header(line) {
        Some(block) => Some(block),
        None => current,
    }
}

/// The edges after a line: a relation line inside a block inserts its sources,
/// every other line changes nothing.
pub open spec fn edges_after_line(edges: Set<Edge>, current: Option<Block>, line: Seq<char>) -> Set<
    Edge,
> {
    match (current, parse_relation(line)) {
        (Some(block), Some((relation, payload))) => edges_after_sources(
            edges,
            block,
            block_set(block, relation),
            payload_tokens(payload),
        ),
        _ => edges,
    }
}

/// The edges after a sequence of lines, read in turn.
pub open spec fn edges_after_lines(
    edges: Set<Edge>,
    current: Option<Block>,
    lines: Seq<Seq<char>>,
) -> Set<Edge>
    decreases lines.len(),
{
    if lines.len() == 0 {
        edges
    } else {
        edges_after_lines(
            edges_after_line(edges, current, lines[0]),
            block_after_line(current, lines[0]),
            lines.drop_first(),
        )
    }
}

/// The edges of the graph that a snapshot describes.
pub open spec fn loaded_edges(text: Seq<char>) -> Set<Edge> {
    edges_after_lines(Set::<Edge>::empty(), None, split_lines(text))
}

/// The keys stand in strictly increasing order.
pub open spec fn sorted_keys(s: Seq<VertexKey>) -> bool {
    forall|i: int, j: int| 0 <= i < j < s.len() ==> key_lt(#[trigger] s[i], #[trigger] s[j])
}

/// Two sequences in strictly increasing order that hold the same keys are the same.
pub proof fn lemma_sorted_unique(a: Seq<VertexKey>, b: Seq<VertexKey>)
    requires
        sorted_keys(a),
        sorted_keys(b),
        forall|v: VertexKey| a.contains(v) <==> b.contains(v),
    ensures
        a == b,
    decreases a.len(),
{
    if a.len() == 0 {
        if b.len() > 0 {
            assert(b.contains(b[0]));
        }
        assert(a =~= b);
    } else {
        assert(a.contains(a[0]));
        let j = choose|j: int| 0 <= j < b.len() && b[j] == a[0];
        assert(b.contains(b[0]));
        let i = choose|i: int| 0 <= i < a.len() && a[i] == b[0];
        lemma_key_lt_asymmetric(a[0], b[0]);
        if j > 0 {
            assert(key_lt(b[0], b[j]));
            if i > 0 {
                assert(key_lt(a[0], a[i]));
            }
        }
        assert(a[0] == b[0]);
        let ra = a.drop_first();
        let rb = b.drop_first();
        assert forall|x: int, y: int| 0 <= x < y < ra.len() implies key_lt(
            #[trigger] ra[x],
            #[trigger] ra[y],
        ) by {
            assert(key_lt(a[x + 1], a[y + 1]));
        }
        assert forall|x: int, y: int| 0 <= x < y < rb.len() implies key_lt(
            #[trigger] rb[x],
            #[trigger] rb[y],
        ) by {
            assert(key_lt(b[x + 1], b[y + 1]));
        }
        assert forall|v: VertexKey| ra.contains(v) <==> rb.contains(v) by {
            lemma_key_lt_asymmetric(a[0], v);
            if ra.contains(v) {
                let x = choose|x: int| 0 <= x < ra.len() && ra[x] == v;
                assert(a[x + 1] == v);
                assert(key_lt(a[0], a[x + 1]));
                assert(a.contains(v));
                let y = choose|y: int| 0 <= y < b.len() && b[y] == v;
                assert(rb[y - 1] == v);
            }
            if rb.contains(v) {
                let y = choose|y: int| 0 <= y < rb.len() && rb[y] == v;
                assert(b[y + 1] == v);
                assert(key_lt(b[0], b[y + 1]));
                assert(b.contains(v));
                let x = choose|x: int| 0 <= x < a.len() && a[x] == v;
                assert(ra[x - 1] == v);
            }
        }
        lemma_sorted_unique(ra, rb);
        assert(a =~= seq![a[0]] + ra);
        assert(b =~= seq![b[0]] + rb);
    }
}

/// `s` holds the vertices of the graph, each once, in their order.
pub open spec fn lists_vertices(edges: Set<Edge>, s: Seq<VertexKey>) -> bool {
    &&& sorted_keys(s)
    &&& forall|v: VertexKey| #[trigger] s.contains(v) <==> has_vertex(edges, v)
}

/// The vertices of the graph in their order.
pub open spec fn vertex_order(edges: Set<Edge>) -> Seq<VertexKey> {
    choose|s: Seq<VertexKey>| lists_vertices(edges, s)
}

/// `s` holds, each once and in their order, the vertices that point to `v`,
/// but for those with the wildcard as their id.
pub open spec fn lists_sources(edges: Set<Edge>, v: VertexKey, s: Seq<VertexKey>) -> bool {
    &&& sorted_keys(s)
    &&& forall|u: VertexKey| #[trigger]
        s.contains(u) <==> edges.contains((u, v)) && u.id != wildcard_text()
}

/// The sources that a snapshot names for `v`, in their order.
pub open spec fn listed_sources(edges: Set<Edge>, v: VertexKey) -> Seq<VertexKey> {
    choose|s: Seq<VertexKey>| lists_sources(edges, v, s)
}

/// A sequence that lists the vertices is the order of the vertices.
pub proof fn lemma_vertex_order(edges: Set<Edge>, s: Seq<VertexKey>)
    requires
        lists_vertices(edges, s),
    ensures
        vertex_order(edges) == s,
{
    lemma_sorted_unique(vertex_order(edges), s);
}

/// A sequence that lists the sources of `v` is the one that a snapshot names.
pub proof fn lemma_listed_sources(edges: Set<Edge>, v: VertexKey, s: Seq<VertexKey>)
    requires
        lists_sources(edges, v, s),
    ensures
        listed_sources(edges, v) == s,
{
    lemma_sorted_unique(listed_sources(edges, v), s);
}

/// Two vertices belong to one block: they agree in namespace and id.
pub open spec fn same_block(a: VertexKey, b: VertexKey) -> bool {
    a.namespace == b.namespace && a.id == b.id
}

/// The header of the block of `v`, with the empty line before it.
pub open spec fn header_text(v: VertexKey) -> Seq<char> {
    seq!['\n', '['] + v.namespace + seq![':'] + v.id + seq![']', '\n']
}

/// How a source is written inside the block of `v`: `self` for the object of
/// the block itself, else namespace and id; then `#` and the relation for a set.
pub open spec fn source_text(v: VertexKey, src: VertexKey) -> Seq<char> {
    let object = if same_block(v, src) {
        seq!['s', 'e', 'l', 'f']
    } else {
        src.namespace + seq![':'] + src.id
    };
    match src.relation {
        Some(relation) => object + seq!['#'] + relation,
        None => object,
    }
}

/// The sources of one line, with a comma and a blank between them.
pub open spec fn sources_text(v: VertexKey, sources: Seq<VertexKey>) -> Seq<char>
    decreases sources.len(),
{
    if sources.len() == 0 {
        Seq::<char>::empty()
    } else if sources.len() == 1 {
        source_text(v, sources[0])
    } else {
        sources_text(v, sources.drop_last()) + seq![',', ' '] + source_text(v, sources.last())
    }
}

/// The line of the set `v` with its sources.
pub open spec fn relation_text(v: VertexKey, sources: Seq<VertexKey>) -> Seq<char> {
    v.relation->0 + seq![' ', '=', ' ', '[', ' '] + sources_text(v, sources) + seq![' ', ']', '\n']
}

/// What the vertex at position `i` adds to a snapshot: the header of its
/// block, where the vertex before it belongs to another one, and its line,
/// where it is a set.
pub open spec fn entry_text(edges: Set<Edge>, order: Seq<VertexKey>, i: int) -> Seq<char> {
    let header = if i == 0 || !same_block(order[i - 1], order[i]) {
        header_text(order[i])
    } else {
        Seq::<char>::empty()
    };
    let line = if order[i].is_set() {
        relation_text(order[i], listed_sources(edges, order[i]))
    } else {
        Seq::<char>::empty()
    };
    header + line
}

/// What the first `n` vertices add to a snapshot.
pub open spec fn entries_text(edges: Set<Edge>, order: Seq<VertexKey>, n: nat) -> Seq<char>
    decreases n,
{
    if n == 0 {
        Seq::<char>::empty()
    } else {
        entries_text(edges, order, (n - 1) as nat) + entry_text(edges, order, n - 1)
    }
}

/// The snapshot of a graph: its vertices in their order, grouped in blocks by
/// namespace and id, each set with the vertices that point to it.
pub open spec fn snapshot_text(edges: Set<Edge>) -> Seq<char> {
    entries_text(edges, vertex_order(edges), vertex_order(edges).len())
}

} // verus!
