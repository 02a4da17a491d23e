//! Reading back a snapshot that was written: the proof that the text of a
//! graph means the relations of that graph.

use vstd::prelude::*;
use crate::format::Block;
use crate::format::block_set;
use crate::format::edges_after_sources;
use crate::format::block_after_line;
use crate::format::edges_after_line;
use crate::format::edges_after_lines;
use crate::format::entries_text;
use crate::format::entry_text;
use crate::format::first_index;
use crate::format::sorted_keys;
use crate::ident::key_lt;
use crate::ident::lemma_key_lt_total;
use crate::ident::lemma_key_lt_transitive;
use crate::format::listed_sources;
use crate::format::lists_sources;
use crate::format::lists_vertices;
use crate::format::loaded_edges;
use crate::format::snapshot_text;
use crate::ident::wildcard_text;
use crate::model::has_vertex;
use crate::model::is_source;
use crate::model::is_target;
use crate::format::header_text;
use crate::format::is_bracketed;
use crate::format::parse_header;
use crate::format::parse_object;
use crate::format::parse_relation;
use crate::format::parse_source;
use crate::format::payload_tokens;
use crate::format::relation_text;
use crate::format::same_block;
use crate::format::source_text;
use crate::format::sources_text;
use crate::ident::VertexKey;
use crate::index::Edge;
use crate::model::built_from;
use crate::model::edges_after_insert;
use crate::model::lemma_built;
use crate::model::scaffold;
use crate::format::first_separator;
use crate::format::is_space;
use crate::format::lemma_first_index;
use crate::format::lemma_first_index_found;
use crate::format::lemma_first_separator;
use crate::format::lemma_first_separator_found;
use crate::format::separator_at;
use crate::format::split_lines;
use crate::format::strip_cr;
use crate::format::tokens;
use crate::format::trim;
use crate::format::trim_end;
use crate::format::trim_start;

verus! {

/// A character that may stand in a namespace, an id or a relation: no white
/// space, and none of the characters that the snapshot gives a meaning to.
pub open spec fn is_field_char(c: char) -> bool {
    !is_space(c) && c != ':' && c != '#' && c != ',' && c != '[' && c != ']' && c != '='
}

/// A namespace, an id or a relation that a snapshot can hold: not empty, and
/// made of field characters.
pub open spec fn is_field(s: Seq<char>) -> bool {
    s.len() > 0 && forall|i: int| 0 <= i < s.len() ==> is_field_char(#[trigger] s[i])
}

/// `c` does not occur in `s`.
pub open spec fn lacks(s: Seq<char>, c: char) -> bool {
    forall|i: int| 0 <= i < s.len() ==> #[trigger] s[i] != c
}

/// In a text that lacks `c` followed by `c`, the first `c` is the one that follows.
pub proof fn lemma_first_index_after(a: Seq<char>, rest: Seq<char>, c: char)
    requires
        lacks(a, c),
    ensures
        first_index(a + seq![c] + rest, c) == a.len(),
        first_index(a, c) == a.len(),
{
    lemma_first_index(a + seq![c] + rest, c, a.len() as int);
    lemma_first_index(a, c, a.len() as int);
}

/// A line that stands before a line feed is the first line of the text.
pub proof fn lemma_split_first_line(line: Seq<char>, rest: Seq<char>)
    requires
        lacks(line, '\n'),
        strip_cr(line) == line,
    ensures
        split_lines(line + seq!['\n'] + rest) == seq![line] + split_lines(rest),
{
    let text = line + seq!['\n'] + rest;
    lemma_first_index_after(line, rest, '\n');
    assert(text.subrange(0, line.len() as int) =~= line);
    assert(text.subrange(line.len() as int + 1, text.len() as int) =~= rest);
}

/// The text is empty or ends with a line feed.
pub open spec fn ends_lines(text: Seq<char>) -> bool {
    text.len() == 0 || text.last() == '\n'
}

/// The lines of two texts, of which the first ends its last line, are the
/// lines of the first and then the lines of the second.
pub proof fn lemma_split_concat(a: Seq<char>, b: Seq<char>)
    requires
        ends_lines(a),
    ensures
        split_lines(a + b) == split_lines(a) + split_lines(b),
    decreases a.len(),
{
    if a.len() == 0 {
        assert(a + b =~= b);
        assert(split_lines(a) + split_lines(b) =~= split_lines(b));
    } else {
        lemma_first_index_found(a, '\n');
        let n = first_index(a, '\n');
        if n >= a.len() {
            assert(a[a.len() - 1] != '\n');
        }
        let s = a + b;
        assert forall|j: int| 0 <= j < n implies s[j] != '\n' by {
            assert(s[j] == a[j]);
        }
        assert(s[n] == a[n]);
        lemma_first_index(s, '\n', n);
        let tail = a.subrange(n + 1, a.len() as int);
        assert(s.subrange(0, n) =~= a.subrange(0, n));
        assert(s.subrange(n + 1, s.len() as int) =~= tail + b);
        if tail.len() > 0 {
            assert(tail.last() == a.last());
        }
        lemma_split_concat(tail, b);
        assert(split_lines(a) == seq![strip_cr(a.subrange(0, n))] + split_lines(tail));
        assert(split_lines(s) == seq![strip_cr(a.subrange(0, n))] + split_lines(tail + b));
        assert(split_lines(s) =~= split_lines(a) + split_lines(b));
    }
}

/// No comma with a blank behind it stands in `s`.
pub open spec fn lacks_separator(s: Seq<char>) -> bool {
    forall|i: int| !separator_at(s, i)
}

/// A text without a comma has no separator.
pub proof fn lemma_no_comma_no_separator(s: Seq<char>)
    requires
        lacks(s, ','),
    ensures
        lacks_separator(s),
        first_separator(s) == s.len(),
        tokens(s) == seq![s],
{
    assert forall|i: int| !separator_at(s, i) by {
        if separator_at(s, i) {
            assert(s[i] == ',');
        }
    }
    lemma_first_separator(s, s.len() as int);
}

/// The pieces of a text, a separator and a last piece are the pieces of the
/// text and the last piece.
pub proof fn lemma_tokens_append(a: Seq<char>, t: Seq<char>)
    requires
        lacks(t, ','),
    ensures
        tokens(a + seq![',', ' '] + t) == tokens(a) + seq![t],
    decreases a.len(),
{
    let sep = seq![',', ' '];
    let s = a + sep + t;
    lemma_first_separator_found(a);
    let i = first_separator(a);
    if i < a.len() {
        // the first separator of `a` is the first of the whole
        assert(separator_at(a, i));
        assert forall|j: int| 0 <= j < i implies !separator_at(s, j) by {
            assert(!separator_at(a, j));
            if j + 1 < a.len() {
                assert(s[j] == a[j] && s[j + 1] == a[j + 1]);
            } else {
                assert(s[j] == a[j]);
                assert(s[j + 1] == ',');
            }
        }
        assert(s[i] == a[i] && s[i + 1] == a[i + 1]);
        lemma_first_separator(s, i);
        let tail = a.subrange(i + 2, a.len() as int);
        assert(s.subrange(0, i) =~= a.subrange(0, i));
        assert(s.subrange(i + 2, s.len() as int) =~= tail + sep + t);
        lemma_tokens_append(tail, t);
        assert(tokens(a) == seq![a.subrange(0, i)] + tokens(tail));
        assert(tokens(s) == seq![a.subrange(0, i)] + tokens(tail + sep + t));
        assert(tokens(s) =~= tokens(a) + seq![t]);
    } else {
        assert forall|j: int| 0 <= j < a.len() implies !separator_at(s, j) by {
            assert(!separator_at(a, j));
            if j + 1 < a.len() {
                assert(s[j] == a[j] && s[j + 1] == a[j + 1]);
            } else {
                assert(s[j + 1] == ',');
            }
        }
        assert(s[a.len() as int] == ',' && s[a.len() as int + 1] == ' ');
        lemma_first_separator(s, a.len() as int);
        assert(s.subrange(0, a.len() as int) =~= a);
        assert(s.subrange(a.len() as int + 2, s.len() as int) =~= t);
        lemma_no_comma_no_separator(t);
        assert(tokens(a) == seq![a]);
        assert(tokens(s) == seq![a] + tokens(t));
        assert(tokens(s) =~= tokens(a) + seq![t]);
    }
}

/// Trimming takes a blank off the end of a text that does not end with white space.
pub proof fn lemma_trim_suffix(t: Seq<char>)
    requires
        t.len() > 0,
        !is_space(t[0]),
        !is_space(t.last()),
    ensures
        trim(t + seq![' ']) == t,
{
    let s = t + seq![' '];
    assert(s[0] == t[0]);
    assert(trim_start(s) == s);
    assert(s.last() == ' ');
    assert(s.drop_last() =~= t);
    assert(trim_end(s) == trim_end(t));
}

/// Trimming takes the blanks off both ends of a text between two blanks.
pub proof fn lemma_trim_padded(t: Seq<char>)
    requires
        t.len() == 0 || (!is_space(t[0]) && !is_space(t.last())),
    ensures
        trim(seq![' '] + t + seq![' ']) == t,
{
    let s = seq![' '] + t + seq![' '];
    assert(s[0] == ' ');
    assert(s.drop_first() =~= t + seq![' ']);
    assert(trim_start(s) == trim_start(t + seq![' ']));
    let u = t + seq![' '];
    if t.len() == 0 {
        assert(u[0] == ' ');
        assert(u.drop_first() =~= Seq::<char>::empty());
        assert(trim_start(u) == trim_start(u.drop_first()));
        assert(trim_start(u.drop_first()) =~= t);
        assert(trim_end(t) == t);
    } else {
        assert(u[0] == t[0]);
        assert(trim_start(u) == u);
        assert(u.last() == ' ');
        assert(u.drop_last() =~= t);
        assert(trim_end(u) == trim_end(t));
    }
}

/// The fields of a key are ones that a snapshot can hold.
pub open spec fn is_plain_key(k: VertexKey) -> bool {
    &&& is_field(k.namespace)
    &&& is_field(k.id)
    &&& k.relation is Some ==> is_field(k.relation->0)
}

/// A character of a written source: a field character, `:` or `#`.
pub open spec fn is_source_char(c: char) -> bool {
    is_field_char(c) || c == ':' || c == '#'
}

/// The text is not empty and made of the characters of written sources.
pub open spec fn is_source_text(s: Seq<char>) -> bool {
    s.len() > 0 && forall|i: int| 0 <= i < s.len() ==> is_source_char(#[trigger] s[i])
}

/// A character of the text between the brackets: one of a written source, a
/// comma or a blank.
pub open spec fn is_payload_char(c: char) -> bool {
    is_source_char(c) || c == ',' || c == ' '
}

/// The text between the brackets: made of payload characters, and with a
/// character of a source at either end where it is not empty.
pub open spec fn is_payload(s: Seq<char>) -> bool {
    &&& forall|i: int| 0 <= i < s.len() ==> is_payload_char(#[trigger] s[i])
    &&& s.len() > 0 ==> is_source_char(s[0]) && is_source_char(s.last())
}

/// The header of the block of `v` as a line.
pub open spec fn header_line(v: VertexKey) -> Seq<char> {
    seq!['['] + v.namespace + seq![':'] + v.id + seq![']']
}

/// The line of the set `v` with its sources, without its line feed.
pub open spec fn relation_line(v: VertexKey, payload: Seq<char>) -> Seq<char> {
    v.relation->0 + seq![' ', '=', ' ', '[', ' '] + payload + seq![' ', ']']
}

/// The block of a vertex.
pub open spec fn block_of(v: VertexKey) -> Block {
    (v.namespace, v.id)
}

/// A header line opens the block that it names, and is no relation line.
pub proof fn lemma_header_line(v: VertexKey)
    requires
        is_field(v.namespace),
        is_field(v.id),
    ensures
        parse_header(header_line(v)) == Some(block_of(v)),
        parse_relation(header_line(v)) is None,
        lacks(header_line(v), '\n'),
        strip_cr(header_line(v)) == header_line(v),
        header_text(v) == seq!['\n'] + (header_line(v) + seq!['\n']),
{
    let line = header_line(v);
    let n = line.len() as int;
    assert(line[0] == '[');
    assert(line.last() == ']');
    assert(is_bracketed(line));
    let inner = line.subrange(1, n - 1);
    assert(inner =~= v.namespace + seq![':'] + v.id);
    assert(lacks(v.namespace, ':')) by {
        assert forall|i: int| 0 <= i < v.namespace.len() implies #[trigger] v.namespace[i]
            != ':' by {
            assert(is_field_char(v.namespace[i]));
        }
    }
    lemma_first_index_after(v.namespace, v.id, ':');
    let c = first_index(inner, ':');
    let rest = inner.subrange(c + 1, inner.len() as int);
    assert(rest =~= v.id);
    assert(lacks(v.id, ':')) by {
        assert forall|i: int| 0 <= i < v.id.len() implies #[trigger] v.id[i] != ':' by {
            assert(is_field_char(v.id[i]));
        }
    }
    lemma_first_index(v.id, ':', v.id.len() as int);
    assert(inner.subrange(0, c) =~= v.namespace);
    assert(rest.subrange(0, v.id.len() as int) =~= v.id);
    assert forall|i: int| 0 <= i < line.len() implies #[trigger] line[i] != '\n' by {
        if 1 <= i < 1 + v.namespace.len() {
            assert(line[i] == v.namespace[i - 1]);
            assert(is_field_char(v.namespace[i - 1]));
        } else if 2 + v.namespace.len() <= i < n - 1 {
            assert(line[i] == v.id[i - 2 - v.namespace.len()]);
            assert(is_field_char(v.id[i - 2 - v.namespace.len()]));
        }
    }
    assert(header_text(v) =~= seq!['\n'] + (header_line(v) + seq!['\n']));
}

/// An empty line opens no block and is no relation line.
pub proof fn lemma_empty_line()
    ensures
        parse_header(Seq::<char>::empty()) is None,
        parse_relation(Seq::<char>::empty()) is None,
{
}

/// A character of a payload is none of the brackets, `=` or a line feed.
pub proof fn lemma_payload_chars(s: Seq<char>)
    requires
        forall|i: int| 0 <= i < s.len() ==> is_payload_char(#[trigger] s[i]),
    ensures
        lacks(s, '['),
        lacks(s, ']'),
        lacks(s, '='),
        lacks(s, '\n'),
        lacks(s, '\r'),
{
    assert forall|i: int| 0 <= i < s.len() implies #[trigger] s[i] != '[' && s[i] != ']' && s[i]
        != '=' && s[i] != '\n' && s[i] != '\r' by {
        assert(is_payload_char(s[i]));
    }
}

/// A relation line names its relation and its payload, and opens no block.
pub proof fn lemma_relation_line(v: VertexKey, payload: Seq<char>)
    requires
        v.relation is Some,
        is_field(v.relation->0),
        is_payload(payload),
    ensures
        parse_header(relation_line(v, payload)) is None,
        parse_relation(relation_line(v, payload)) == Some((v.relation->0, payload)),
        lacks(relation_line(v, payload), '\n'),
        strip_cr(relation_line(v, payload)) == relation_line(v, payload),
{
    let rel = v.relation->0;
    let line = relation_line(v, payload);
    let k = rel.len() as int;
    let p = payload.len() as int;
    assert(line.len() == k + 5 + p + 2);
    assert forall|i: int| 0 <= i < k implies line[i] == rel[i] by {}
    assert(line[k] == ' ' && line[k + 1] == '=' && line[k + 2] == ' ' && line[k + 3] == '['
        && line[k + 4] == ' ');
    assert forall|i: int| 0 <= i < p implies line[k + 5 + i] == payload[i] by {}
    assert(line[k + 5 + p] == ' ' && line[k + 6 + p] == ']');
    assert forall|i: int| 0 <= i < k implies is_field_char(#[trigger] line[i]) by {
        assert(line[i] == rel[i]);
        assert(is_field_char(rel[i]));
    }
    lemma_payload_chars(payload);
    assert(is_field_char(line[0]));
    assert(!is_bracketed(line));
    // the first `=`
    assert forall|j: int| 0 <= j < k + 1 implies line[j] != '=' by {
        if j < k {
            assert(is_field_char(line[j]));
        }
    }
    lemma_first_index(line, '=', k + 1);
    // the first `[`
    assert forall|j: int| 0 <= j < k + 3 implies line[j] != '[' by {
        if j < k {
            assert(is_field_char(line[j]));
        }
    }
    lemma_first_index(line, '[', k + 3);
    // the first `]`
    assert forall|j: int| 0 <= j < k + 6 + p implies line[j] != ']' by {
        if j < k {
            assert(is_field_char(line[j]));
        } else if k + 5 <= j < k + 5 + p {
            assert(line[j] == payload[j - k - 5]);
        }
    }
    lemma_first_index(line, ']', k + 6 + p);
    assert(line.subrange(0, k + 1) =~= rel + seq![' ']);
    assert(is_field_char(rel[0]) && is_field_char(rel.last()));
    lemma_trim_suffix(rel);
    assert(line.subrange(k + 4, k + 6 + p) =~= seq![' '] + payload + seq![' ']);
    if p > 0 {
        assert(is_source_char(payload[0]) && is_source_char(payload.last()));
    }
    lemma_trim_padded(payload);
    assert forall|i: int| 0 <= i < line.len() implies #[trigger] line[i] != '\n' by {
        if i < k {
            assert(is_field_char(line[i]));
        } else if k + 5 <= i < k + 5 + p {
            assert(line[i] == payload[i - k - 5]);
        }
    }
}

/// How the object of a source is written inside the block of `v`.
pub open spec fn object_text(v: VertexKey, src: VertexKey) -> Seq<char> {
    if same_block(v, src) {
        seq!['s', 'e', 'l', 'f']
    } else {
        src.namespace + seq![':'] + src.id
    }
}

/// A written source is a text of source characters without a comma, and
/// reading it inside the block of `v` gives the source back.
pub proof fn lemma_source_text(v: VertexKey, src: VertexKey)
    requires
        is_plain_key(src),
    ensures
        is_source_text(source_text(v, src)),
        lacks(source_text(v, src), ','),
        parse_source(block_of(v), source_text(v, src)) == src,
{
    let obj = object_text(v, src);
    let text = source_text(v, src);
    let ns = src.namespace;
    let id = src.id;
    assert forall|i: int| 0 <= i < obj.len() implies is_source_char(#[trigger] obj[i]) && obj[i]
        != '#' by {
        if !same_block(v, src) {
            if i < ns.len() {
                assert(obj[i] == ns[i]);
                assert(is_field_char(ns[i]));
            } else if i > ns.len() {
                assert(obj[i] == id[i - ns.len() - 1]);
                assert(is_field_char(id[i - ns.len() - 1]));
            }
        }
    }
    assert(obj.len() > 0);
    // the object of the source
    assert(parse_object(block_of(v), obj) == block_of(src)) by {
        if same_block(v, src) {
            lemma_first_index(obj, ':', obj.len() as int);
        } else {
            assert(lacks(ns, ':')) by {
                assert forall|i: int| 0 <= i < ns.len() implies #[trigger] ns[i] != ':' by {
                    assert(is_field_char(ns[i]));
                }
            }
            lemma_first_index_after(ns, id, ':');
            assert(obj.subrange(0, ns.len() as int) =~= ns);
            assert(obj.subrange(ns.len() as int + 1, obj.len() as int) =~= id);
        }
    }
    match src.relation {
        Some(relation) => {
            assert(text == obj + seq!['#'] + relation);
            assert(lacks(obj, '#'));
            lemma_first_index_after(obj, relation, '#');
            assert(text.subrange(0, obj.len() as int) =~= obj);
            assert(text.subrange(obj.len() as int + 1, text.len() as int) =~= relation);
            assert forall|i: int| 0 <= i < text.len() implies is_source_char(
                #[trigger] text[i],
            ) by {
                if i < obj.len() {
                    assert(text[i] == obj[i]);
                } else if i > obj.len() {
                    assert(text[i] == relation[i - obj.len() - 1]);
                    assert(is_field_char(relation[i - obj.len() - 1]));
                }
            }
        },
        None => {
            assert(text == obj);
            lemma_first_index(obj, '#', obj.len() as int);
        },
    }
    assert forall|i: int| 0 <= i < text.len() implies #[trigger] text[i] != ',' by {
        assert(is_source_char(text[i]));
    }
}

/// The written sources, one for each of `sources`.
pub open spec fn source_texts(v: VertexKey, sources: Seq<VertexKey>) -> Seq<Seq<char>> {
    Seq::new(sources.len(), |i: int| source_text(v, sources[i]))
}

/// The sources of one line are a payload whose pieces are the written sources.
pub proof fn lemma_sources_text(v: VertexKey, sources: Seq<VertexKey>)
    requires
        forall|i: int| 0 <= i < sources.len() ==> is_plain_key(#[trigger] sources[i]),
    ensures
        is_payload(sources_text(v, sources)),
        sources.len() > 0 ==> sources_text(v, sources).len() > 0,
        payload_tokens(sources_text(v, sources)) == source_texts(v, sources),
    decreases sources.len(),
{
    let text = sources_text(v, sources);
    if sources.len() == 0 {
        assert(payload_tokens(text) =~= source_texts(v, sources));
    } else if sources.len() == 1 {
        lemma_source_text(v, sources[0]);
        lemma_no_comma_no_separator(text);
        assert(payload_tokens(text) =~= source_texts(v, sources));
        assert forall|i: int| 0 <= i < text.len() implies is_payload_char(#[trigger] text[i]) by {
            assert(is_source_char(text[i]));
        }
    } else {
        let front = sources.drop_last();
        let last = source_text(v, sources.last());
        lemma_sources_text(v, front);
        lemma_source_text(v, sources.last());
        let a = sources_text(v, front);
        assert(text == a + seq![',', ' '] + last);
        lemma_tokens_append(a, last);
        assert(tokens(a) == source_texts(v, front));
        assert(payload_tokens(text) =~= source_texts(v, sources)) by {
            let left = tokens(a) + seq![last];
            let right = source_texts(v, sources);
            assert(left.len() == right.len());
            assert forall|i: int| 0 <= i < left.len() implies left[i] == right[i] by {
                if i < front.len() {
                    assert(front[i] == sources[i]);
                }
            }
        }
        assert forall|i: int| 0 <= i < text.len() implies is_payload_char(#[trigger] text[i]) by {
            if i < a.len() {
                assert(text[i] == a[i]);
            } else if i >= a.len() + 2 {
                assert(text[i] == last[i - a.len() - 2]);
                assert(is_source_char(last[i - a.len() - 2]));
            }
        }
        assert(text[0] == a[0]);
        assert(text.last() == last.last());
    }
}

/// The edges after each of `sources` was inserted with `dst` as its destination.
pub open spec fn edges_after_all(edges: Set<Edge>, sources: Seq<VertexKey>, dst: VertexKey) -> Set<
    Edge,
>
    decreases sources.len(),
{
    if sources.len() == 0 {
        edges
    } else {
        edges_after_all(edges_after_insert(edges, sources[0], dst), sources.drop_first(), dst)
    }
}

/// Reading the written sources of `v` inserts each source with `v` as its destination.
pub proof fn lemma_read_sources(edges: Set<Edge>, v: VertexKey, sources: Seq<VertexKey>)
    requires
        forall|i: int| 0 <= i < sources.len() ==> is_plain_key(#[trigger] sources[i]),
    ensures
        edges_after_sources(edges, block_of(v), v, source_texts(v, sources)) == edges_after_all(
            edges,
            sources,
            v,
        ),
    decreases sources.len(),
{
    let texts = source_texts(v, sources);
    if sources.len() > 0 {
        lemma_source_text(v, sources[0]);
        assert(texts[0] == source_text(v, sources[0]));
        assert(texts.drop_first() =~= source_texts(v, sources.drop_first()));
        assert forall|i: int| 0 <= i < sources.drop_first().len() implies is_plain_key(
            #[trigger] sources.drop_first()[i],
        ) by {
            assert(sources.drop_first()[i] == sources[i + 1]);
        }
        lemma_read_sources(
            edges_after_insert(edges, sources[0], v),
            v,
            sources.drop_first(),
        );
    }
}

/// What it takes to write a graph and read it back: `order` lists the
/// vertices, every vertex has fields that a snapshot can hold, and the
/// sources of every vertex can be listed.
pub open spec fn is_writable(edges: Set<Edge>, order: Seq<VertexKey>) -> bool {
    &&& lists_vertices(edges, order)
    &&& forall|i: int| 0 <= i < order.len() ==> is_plain_key(#[trigger] order[i])
    &&& forall|i: int|
        0 <= i < order.len() ==> lists_sources(
            edges,
            #[trigger] order[i],
            listed_sources(edges, order[i]),
        )
}

/// The sources that a snapshot names for a vertex have fields that it can hold.
pub proof fn lemma_listed_sources_plain(edges: Set<Edge>, order: Seq<VertexKey>, i: int)
    requires
        is_writable(edges, order),
        0 <= i < order.len(),
    ensures
        forall|k: int|
            0 <= k < listed_sources(edges, order[i]).len() ==> is_plain_key(
                #[trigger] listed_sources(edges, order[i])[k],
            ),
{
    let v = order[i];
    let sources = listed_sources(edges, v);
    assert forall|k: int| 0 <= k < sources.len() implies is_plain_key(#[trigger] sources[k]) by {
        let u = sources[k];
        assert(sources.contains(u));
        assert(edges.contains((u, v)));
        assert(is_source(edges, u));
        assert(has_vertex(edges, u));
        assert(order.contains(u));
        let j = choose|j: int| 0 <= j < order.len() && order[j] == u;
        assert(is_plain_key(order[j]));
    }
}

/// The vertex at position `i` opens a block of its own.
pub open spec fn opens_block(order: Seq<VertexKey>, i: int) -> bool {
    i == 0 || !same_block(order[i - 1], order[i])
}

/// The lines that the vertex at position `i` adds to a snapshot.
pub open spec fn lines_of_entry(edges: Set<Edge>, order: Seq<VertexKey>, i: int) -> Seq<Seq<char>> {
    let head = if opens_block(order, i) {
        seq![Seq::<char>::empty(), header_line(order[i])]
    } else {
        Seq::<Seq<char>>::empty()
    };
    let line = if order[i].is_set() {
        seq![
            relation_line(order[i], sources_text(order[i], listed_sources(edges, order[i]))),
        ]
    } else {
        Seq::<Seq<char>>::empty()
    };
    head + line
}

/// The lines that the first `n` vertices add to a snapshot.
pub open spec fn lines_of_entries(edges: Set<Edge>, order: Seq<VertexKey>, n: nat) -> Seq<
    Seq<char>,
>
    decreases n,
{
    if n == 0 {
        Seq::<Seq<char>>::empty()
    } else {
        lines_of_entries(edges, order, (n - 1) as nat) + lines_of_entry(edges, order, n - 1)
    }
}

/// The text of one vertex is made of its lines, each with a line feed.
pub proof fn lemma_entry_lines(edges: Set<Edge>, order: Seq<VertexKey>, i: int)
    requires
        is_writable(edges, order),
        0 <= i < order.len(),
    ensures
        split_lines(entry_text(edges, order, i)) == lines_of_entry(edges, order, i),
        ends_lines(entry_text(edges, order, i)),
{
    let v = order[i];
    let none = Seq::<char>::empty();
    let feed = seq!['\n'];
    assert(is_plain_key(v));
    let header = if opens_block(order, i) {
        header_text(v)
    } else {
        none
    };
    let head_lines = if opens_block(order, i) {
        seq![none, header_line(v)]
    } else {
        Seq::<Seq<char>>::empty()
    };
    assert(split_lines(header) == head_lines && ends_lines(header)) by {
        if opens_block(order, i) {
            lemma_header_line(v);
            let h = header_line(v);
            lemma_split_first_line(h, none);
            assert(h + feed + none =~= h + feed);
            assert(split_lines(h + feed) =~= seq![h]);
            lemma_split_first_line(none, h + feed);
            assert(none + feed + (h + feed) =~= header_text(v));
            assert(seq![none] + seq![h] =~= head_lines);
            assert(header_text(v).last() == '\n');
        }
    }
    let sources = listed_sources(edges, v);
    let payload = sources_text(v, sources);
    let line = if v.is_set() {
        relation_text(v, sources)
    } else {
        none
    };
    let line_lines = if v.is_set() {
        seq![relation_line(v, payload)]
    } else {
        Seq::<Seq<char>>::empty()
    };
    assert(split_lines(line) == line_lines && ends_lines(line)) by {
        if v.is_set() {
            lemma_listed_sources_plain(edges, order, i);
            lemma_sources_text(v, sources);
            lemma_relation_line(v, payload);
            let r = relation_line(v, payload);
            lemma_split_first_line(r, none);
            assert(r + feed + none =~= relation_text(v, sources));
            assert(seq![r] + split_lines(none) =~= line_lines);
            assert(relation_text(v, sources).last() == '\n');
        }
    }
    lemma_split_concat(header, line);
    assert(entry_text(edges, order, i) == header + line);
    assert(lines_of_entry(edges, order, i) == head_lines + line_lines);
    if line.len() > 0 {
        assert((header + line).last() == line.last());
    } else {
        assert(header + line =~= header);
    }
}

/// The text of the first `n` vertices is made of their lines, each with a line feed.
pub proof fn lemma_entries_lines(edges: Set<Edge>, order: Seq<VertexKey>, n: nat)
    requires
        is_writable(edges, order),
        n <= order.len(),
    ensures
        split_lines(entries_text(edges, order, n)) == lines_of_entries(edges, order, n),
        ends_lines(entries_text(edges, order, n)),
    decreases n,
{
    if n > 0 {
        let before = entries_text(edges, order, (n - 1) as nat);
        let entry = entry_text(edges, order, n - 1);
        lemma_entries_lines(edges, order, (n - 1) as nat);
        lemma_entry_lines(edges, order, n - 1);
        lemma_split_concat(before, entry);
        if entry.len() > 0 {
            assert((before + entry).last() == entry.last());
        } else {
            assert(before + entry =~= before);
        }
    }
}

/// The block that is open after a sequence of lines.
pub open spec fn block_after_lines(current: Option<Block>, lines: Seq<Seq<char>>) -> Option<Block>
    decreases lines.len(),
{
    if lines.len() == 0 {
        current
    } else {
        block_after_lines(block_after_line(current, lines[0]), lines.drop_first())
    }
}

/// Reading two sequences of lines, one after the other, is reading them joined.
pub proof fn lemma_lines_concat(
    edges: Set<Edge>,
    current: Option<Block>,
    a: Seq<Seq<char>>,
    b: Seq<Seq<char>>,
)
    ensures
        edges_after_lines(edges, current, a + b) == edges_after_lines(
            edges_after_lines(edges, current, a),
            block_after_lines(current, a),
            b,
        ),
        block_after_lines(current, a + b) == block_after_lines(block_after_lines(current, a), b),
    decreases a.len(),
{
    if a.len() == 0 {
        assert(a + b =~= b);
    } else {
        let s = a + b;
        assert(s[0] == a[0]);
        assert(s.drop_first() =~= a.drop_first() + b);
        lemma_lines_concat(
            edges_after_line(edges, current, a[0]),
            block_after_line(current, a[0]),
            a.drop_first(),
            b,
        );
    }
}

/// Reading a sequence of one line is reading the line.
pub proof fn lemma_single_line(edges: Set<Edge>, current: Option<Block>, line: Seq<char>)
    ensures
        edges_after_lines(edges, current, seq![line]) == edges_after_line(edges, current, line),
        block_after_lines(current, seq![line]) == block_after_line(current, line),
{
    let s = seq![line];
    assert(s[0] == line);
    assert(s.drop_first().len() == 0);
    let e = edges_after_line(edges, current, line);
    let b = block_after_line(current, line);
    assert(edges_after_lines(e, b, s.drop_first()) == e);
    assert(block_after_lines(b, s.drop_first()) == b);
}

/// What reading the lines of a vertex adds to the edges read so far: for a
/// set, each of its listed sources, inserted with the set as its destination.
pub open spec fn effect_of_entry(edges: Set<Edge>, acc: Set<Edge>, v: VertexKey) -> Set<Edge> {
    if v.is_set() {
        edges_after_all(acc, listed_sources(edges, v), v)
    } else {
        acc
    }
}

/// The block that is open before the lines of the vertex at position `i`.
pub open spec fn block_before(order: Seq<VertexKey>, i: int) -> Option<Block> {
    if i <= 0 {
        None
    } else {
        Some(block_of(order[i - 1]))
    }
}

/// Reading the lines of the vertex at position `i` inserts its listed sources
/// and leaves its block open.
pub proof fn lemma_read_entry(edges: Set<Edge>, order: Seq<VertexKey>, i: int, acc: Set<Edge>)
    requires
        is_writable(edges, order),
        0 <= i < order.len(),
    ensures
        edges_after_lines(acc, block_before(order, i), lines_of_entry(edges, order, i))
            == effect_of_entry(edges, acc, order[i]),
        block_after_lines(block_before(order, i), lines_of_entry(edges, order, i)) == Some(
            block_of(order[i]),
        ),
{
    let v = order[i];
    let none = Seq::<char>::empty();
    let before = block_before(order, i);
    assert(is_plain_key(v));
    let head = if opens_block(order, i) {
        seq![none, header_line(v)]
    } else {
        Seq::<Seq<char>>::empty()
    };
    // the header leaves the edges and opens the block
    assert(edges_after_lines(acc, before, head) == acc && block_after_lines(before, head) == Some(
        block_of(v),
    )) by {
        if opens_block(order, i) {
            lemma_header_line(v);
            lemma_empty_line();
            lemma_single_line(acc, before, none);
            lemma_single_line(acc, before, header_line(v));
            lemma_lines_concat(acc, before, seq![none], seq![header_line(v)]);
            assert(seq![none] + seq![header_line(v)] =~= head);
        }
    }
    let open = Some(block_of(v));
    let sources = listed_sources(edges, v);
    let payload = sources_text(v, sources);
    let line = if v.is_set() {
        seq![relation_line(v, payload)]
    } else {
        Seq::<Seq<char>>::empty()
    };
    assert(edges_after_lines(acc, open, line) == effect_of_entry(edges, acc, v)
        && block_after_lines(open, line) == open) by {
        if v.is_set() {
            lemma_listed_sources_plain(edges, order, i);
            lemma_sources_text(v, sources);
            lemma_relation_line(v, payload);
            lemma_read_sources(acc, v, sources);
            lemma_single_line(acc, open, relation_line(v, payload));
            assert(block_set(block_of(v), v.relation->0) == v);
        }
    }
    lemma_lines_concat(acc, before, head, line);
}

/// The edges that reading the lines of the first `n` vertices gives.
pub open spec fn edges_of_entries(edges: Set<Edge>, order: Seq<VertexKey>, n: nat) -> Set<Edge>
    decreases n,
{
    if n == 0 {
        Set::<Edge>::empty()
    } else {
        effect_of_entry(edges, edges_of_entries(edges, order, (n - 1) as nat), order[n - 1])
    }
}

/// Reading the lines of the first `n` vertices inserts their listed sources.
pub proof fn lemma_read_entries(edges: Set<Edge>, order: Seq<VertexKey>, n: nat)
    requires
        is_writable(edges, order),
        n <= order.len(),
    ensures
        edges_after_lines(Set::<Edge>::empty(), None, lines_of_entries(edges, order, n))
            == edges_of_entries(edges, order, n),
        block_after_lines(None, lines_of_entries(edges, order, n)) == block_before(order, n as int),
    decreases n,
{
    if n > 0 {
        let before = lines_of_entries(edges, order, (n - 1) as nat);
        let entry = lines_of_entry(edges, order, n - 1);
        lemma_read_entries(edges, order, (n - 1) as nat);
        lemma_lines_concat(Set::<Edge>::empty(), None, before, entry);
        lemma_read_entry(edges, order, n - 1, edges_of_entries(edges, order, (n - 1) as nat));
    }
}

/// Reading the snapshot of a graph inserts, for every set of the graph, each
/// of the sources that the snapshot names for it.
pub proof fn lemma_read_snapshot(edges: Set<Edge>, order: Seq<VertexKey>)
    requires
        is_writable(edges, order),
    ensures
        loaded_edges(snapshot_text(edges)) == edges_of_entries(edges, order, order.len()),
{
    crate::format::lemma_vertex_order(edges, order);
    lemma_entries_lines(edges, order, order.len());
    lemma_read_entries(edges, order, order.len());
}

/// An edge that a snapshot writes down: it leads to a set, and its source
/// does not have the wildcard as its id.
pub open spec fn is_principal(edges: Set<Edge>, p: Edge) -> bool {
    edges.contains(p) && p.1.is_set() && p.0.id != wildcard_text()
}

/// The edges that inserting every written edge of a graph gives.
pub open spec fn rebuilt(edges: Set<Edge>) -> Set<Edge> {
    Set::new(
        |e: Edge|
            exists|p: Edge| #[trigger] is_principal(edges, p) && scaffold(p.0, p.1).contains(e),
    )
}

/// The edges that the insertions of `sources`, each with `v` as its destination, install.
pub open spec fn scaffolds_of(sources: Seq<VertexKey>, v: VertexKey) -> Set<Edge> {
    Set::new(
        |e: Edge|
            exists|i: int|
                0 <= i < sources.len() && #[trigger] scaffold(sources[i], v).contains(e),
    )
}

/// Inserting each of `sources` adds the edges that those insertions install.
pub proof fn lemma_after_all(acc: Set<Edge>, sources: Seq<VertexKey>, v: VertexKey)
    ensures
        edges_after_all(acc, sources, v) == acc.union(scaffolds_of(sources, v)),
    decreases sources.len(),
{
    if sources.len() == 0 {
        assert(acc.union(scaffolds_of(sources, v)) =~= acc);
    } else {
        let rest = sources.drop_first();
        let next = edges_after_insert(acc, sources[0], v);
        lemma_after_all(next, rest, v);
        assert forall|e: Edge|
            next.union(scaffolds_of(rest, v)).contains(e) <==> acc.union(
                scaffolds_of(sources, v),
            ).contains(e) by {
            if scaffolds_of(rest, v).contains(e) {
                let i = choose|i: int|
                    0 <= i < rest.len() && #[trigger] scaffold(rest[i], v).contains(e);
                assert(rest[i] == sources[i + 1]);
                assert(scaffold(sources[i + 1], v).contains(e));
            }
            if scaffold(sources[0], v).contains(e) {
                assert(scaffolds_of(sources, v).contains(e));
            }
            if scaffolds_of(sources, v).contains(e) {
                let i = choose|i: int|
                    0 <= i < sources.len() && #[trigger] scaffold(sources[i], v).contains(e);
                if i > 0 {
                    assert(rest[i - 1] == sources[i]);
                    assert(scaffold(rest[i - 1], v).contains(e));
                }
            }
        }
        assert(next.union(scaffolds_of(rest, v)) =~= acc.union(scaffolds_of(sources, v)));
    }
}

/// The edges that inserting the written edges to the first `n` vertices gives.
pub open spec fn rebuilt_upto(edges: Set<Edge>, order: Seq<VertexKey>, n: nat) -> Set<Edge> {
    Set::new(
        |e: Edge|
            exists|p: Edge, j: int| #[trigger]
                is_principal(edges, p) && scaffold(p.0, p.1).contains(e) && 0 <= j < n
                    && #[trigger] order[j] == p.1,
    )
}

/// Reading the lines of the first `n` vertices inserts the written edges to them.
pub proof fn lemma_entries_rebuilt(edges: Set<Edge>, order: Seq<VertexKey>, n: nat)
    requires
        is_writable(edges, order),
        n <= order.len(),
    ensures
        edges_of_entries(edges, order, n) == rebuilt_upto(edges, order, n),
    decreases n,
{
    if n == 0 {
        assert(rebuilt_upto(edges, order, n) =~= Set::<Edge>::empty());
    } else {
        let m = (n - 1) as nat;
        let v = order[n - 1];
        let acc = edges_of_entries(edges, order, m);
        let sources = listed_sources(edges, v);
        lemma_entries_rebuilt(edges, order, m);
        lemma_after_all(acc, sources, v);
        assert(lists_sources(edges, v, sources));
        let now = edges_of_entries(edges, order, n);
        assert forall|e: Edge| now.contains(e) <==> rebuilt_upto(edges, order, n).contains(e) by {
            if now.contains(e) {
                if acc.contains(e) {
                    let (p, j) = choose|p: Edge, j: int| #[trigger]
                        is_principal(edges, p) && scaffold(p.0, p.1).contains(e) && 0 <= j < m
                            && #[trigger] order[j] == p.1;
                    assert(is_principal(edges, p) && 0 <= j < n && order[j] == p.1);
                } else {
                    assert(v.is_set() && scaffolds_of(sources, v).contains(e));
                    let i = choose|i: int|
                        0 <= i < sources.len() && #[trigger] scaffold(sources[i], v).contains(e);
                    assert(sources.contains(sources[i]));
                    let p = (sources[i], v);
                    assert(is_principal(edges, p) && order[n - 1] == p.1);
                }
            }
            if rebuilt_upto(edges, order, n).contains(e) {
                let (p, j) = choose|p: Edge, j: int| #[trigger]
                    is_principal(edges, p) && scaffold(p.0, p.1).contains(e) && 0 <= j < n
                        && #[trigger] order[j] == p.1;
                if j < m {
                    assert(rebuilt_upto(edges, order, m).contains(e));
                } else {
                    assert(p.1 == v);
                    assert(sources.contains(p.0));
                    let i = choose|i: int| 0 <= i < sources.len() && sources[i] == p.0;
                    assert(scaffold(sources[i], v).contains(e));
                    assert(scaffolds_of(sources, v).contains(e));
                }
            }
        }
        assert(now =~= rebuilt_upto(edges, order, n));
    }
}

/// Reading the snapshot of a graph gives the edges that inserting every
/// written edge of the graph gives.
pub proof fn lemma_snapshot_rebuilds(edges: Set<Edge>, order: Seq<VertexKey>)
    requires
        is_writable(edges, order),
    ensures
        loaded_edges(snapshot_text(edges)) == rebuilt(edges),
{
    lemma_read_snapshot(edges, order);
    lemma_entries_rebuilt(edges, order, order.len());
    let all = rebuilt_upto(edges, order, order.len());
    assert forall|e: Edge| all.contains(e) <==> rebuilt(edges).contains(e) by {
        if rebuilt(edges).contains(e) {
            let p = choose|p: Edge| #[trigger]
                is_principal(edges, p) && scaffold(p.0, p.1).contains(e);
            assert(is_target(edges, p.1));
            assert(has_vertex(edges, p.1));
            assert(order.contains(p.1));
            let j = choose|j: int| 0 <= j < order.len() && order[j] == p.1;
            assert(is_principal(edges, p) && order[j] == p.1);
        }
    }
    assert(all =~= rebuilt(edges));
}

/// How many keys at the front of `q` come before `x`.
pub open spec fn rank(q: Seq<VertexKey>, x: VertexKey) -> int
    decreases q.len(),
{
    if q.len() > 0 && key_lt(q[0], x) {
        1 + rank(q.drop_first(), x)
    } else {
        0
    }
}

/// In a sorted sequence that lacks `x`, the keys before the rank of `x` come
/// before `x`, and the others after it.
pub proof fn lemma_rank(q: Seq<VertexKey>, x: VertexKey)
    requires
        sorted_keys(q),
        !q.contains(x),
    ensures
        0 <= rank(q, x) <= q.len(),
        forall|j: int| 0 <= j < rank(q, x) ==> key_lt(#[trigger] q[j], x),
        forall|j: int| rank(q, x) <= j < q.len() ==> key_lt(x, #[trigger] q[j]),
    decreases q.len(),
{
    if q.len() > 0 {
        assert(q.contains(q[0]));
        if key_lt(q[0], x) {
            let rest = q.drop_first();
            assert forall|a: int, b: int| 0 <= a < b < rest.len() implies key_lt(
                #[trigger] rest[a],
                #[trigger] rest[b],
            ) by {
                assert(key_lt(q[a + 1], q[b + 1]));
            }
            if rest.contains(x) {
                let j = choose|j: int| 0 <= j < rest.len() && rest[j] == x;
                assert(q[j + 1] == x);
                assert(q.contains(x));
            }
            lemma_rank(rest, x);
            assert forall|j: int| 0 <= j < rank(q, x) implies key_lt(#[trigger] q[j], x) by {
                if j > 0 {
                    assert(q[j] == rest[j - 1]);
                }
            }
            assert forall|j: int| rank(q, x) <= j < q.len() implies key_lt(
                x,
                #[trigger] q[j],
            ) by {
                assert(q[j] == rest[j - 1]);
            }
        } else {
            lemma_key_lt_total(q[0], x);
            assert forall|j: int| 0 <= j < q.len() implies key_lt(x, #[trigger] q[j]) by {
                if j > 0 {
                    assert(key_lt(q[0], q[j]));
                    lemma_key_lt_transitive(x, q[0], q[j]);
                }
            }
        }
    }
}

/// The keys of a finite set can be listed in their order.
pub proof fn lemma_sorted_listing_exists(s: Set<VertexKey>) -> (q: Seq<VertexKey>)
    requires
        s.finite(),
    ensures
        sorted_keys(q),
        forall|v: VertexKey| #[trigger] q.contains(v) <==> s.contains(v),
    decreases s.len(),
{
    if s.len() == 0 {
        let q = Seq::<VertexKey>::empty();
        assert forall|v: VertexKey| #[trigger] q.contains(v) <==> s.contains(v) by {
            if s.contains(v) {
                assert(s.remove(v).len() + 1 == s.len());
            }
        }
        q
    } else {
        let x = s.choose();
        assert(s.contains(x));
        let rest = s.remove(x);
        let q0 = lemma_sorted_listing_exists(rest);
        assert(!q0.contains(x));
        lemma_rank(q0, x);
        let i = rank(q0, x);
        let q = q0.insert(i, x);
        assert forall|a: int, b: int| 0 <= a < b < q.len() implies key_lt(
            #[trigger] q[a],
            #[trigger] q[b],
        ) by {
            if b < i {
                assert(key_lt(q0[a], q0[b]));
            } else if b == i {
                assert(key_lt(q0[a], x));
            } else if a == i {
                assert(key_lt(x, q0[b - 1]));
            } else if a > i {
                assert(key_lt(q0[a - 1], q0[b - 1]));
            } else {
                assert(key_lt(q0[a], q0[b - 1]));
            }
        }
        assert forall|v: VertexKey| #[trigger] q.contains(v) <==> s.contains(v) by {
            if q.contains(v) {
                let j = choose|j: int| 0 <= j < q.len() && q[j] == v;
                if j < i {
                    assert(q0[j] == v);
                    assert(q0.contains(v));
                } else if j > i {
                    assert(q0[j - 1] == v);
                    assert(q0.contains(v));
                }
            }
            if s.contains(v) {
                if v == x {
                    assert(q[i] == v);
                } else {
                    assert(rest.contains(v));
                    assert(q0.contains(v));
                    let j = choose|j: int| 0 <= j < q0.len() && q0[j] == v;
                    if j < i {
                        assert(q[j] == v);
                    } else {
                        assert(q[j + 1] == v);
                    }
                }
            }
        }
        q
    }
}

/// A relation that a snapshot keeps: its fields are ones that a snapshot can
/// hold, its destination is a set, and its source does not have the wildcard
/// as its id.
pub open spec fn is_plain_tuple(t: Edge) -> bool {
    &&& is_plain_key(t.0)
    &&& is_plain_key(t.1)
    &&& t.1.is_set()
    &&& t.0.id != wildcard_text()
}

/// The wildcard of a key with plain fields has plain fields.
pub proof fn lemma_wildcard_plain(k: VertexKey)
    requires
        is_plain_key(k),
    ensures
        is_plain_key(k.wildcard()),
{
    assert(is_field_char('*'));
    assert(wildcard_text().len() == 1);
    assert(wildcard_text()[0] == '*');
}

/// Every vertex of a graph built by insertions of plain relations has plain fields.
pub proof fn lemma_built_vertices_plain(tuples: Seq<Edge>, v: VertexKey)
    requires
        forall|k: int| 0 <= k < tuples.len() ==> is_plain_tuple(#[trigger] tuples[k]),
        has_vertex(built_from(tuples), v),
    ensures
        is_plain_key(v),
{
    let edges = built_from(tuples);
    lemma_built(tuples);
    let e = if is_source(edges, v) {
        let w = choose|w: VertexKey| edges.contains((v, w));
        (v, w)
    } else {
        let w = choose|w: VertexKey| edges.contains((w, v));
        (w, v)
    };
    assert(edges.contains(e));
    let k = choose|k: int|
        0 <= k < tuples.len() && #[trigger] scaffold(tuples[k].0, tuples[k].1).contains(e);
    assert(is_plain_tuple(tuples[k]));
    lemma_wildcard_plain(tuples[k].0);
    lemma_wildcard_plain(tuples[k].1);
}

/// In a graph built by insertions of plain relations, inserting every written
/// edge gives the graph itself.
pub proof fn lemma_built_rebuilt(tuples: Seq<Edge>)
    requires
        forall|k: int| 0 <= k < tuples.len() ==> is_plain_tuple(#[trigger] tuples[k]),
    ensures
        rebuilt(built_from(tuples)) == built_from(tuples),
{
    let edges = built_from(tuples);
    lemma_built(tuples);
    assert forall|e: Edge| rebuilt(edges).contains(e) <==> edges.contains(e) by {
        if rebuilt(edges).contains(e) {
            let p = choose|p: Edge| #[trigger]
                is_principal(edges, p) && scaffold(p.0, p.1).contains(e);
            let k = choose|k: int|
                0 <= k < tuples.len() && #[trigger] scaffold(tuples[k].0, tuples[k].1).contains(p);
            assert(is_plain_tuple(tuples[k]));
            // a written edge is the relation of its insertion itself
            assert(p == tuples[k]);
            assert(scaffold(tuples[k].0, tuples[k].1).contains(e));
        }
        if edges.contains(e) {
            let k = choose|k: int|
                0 <= k < tuples.len() && #[trigger] scaffold(tuples[k].0, tuples[k].1).contains(e);
            assert(is_plain_tuple(tuples[k]));
            let p = tuples[k];
            assert(scaffold(tuples[k].0, tuples[k].1).contains(p));
            assert(is_principal(edges, p));
        }
    }
    assert(rebuilt(edges) =~= edges);
}

/// The vertices of a graph.
pub open spec fn vertex_set(edges: Set<Edge>) -> Set<VertexKey> {
    Set::new(|v: VertexKey| has_vertex(edges, v))
}

/// A graph with finitely many edges has finitely many vertices.
pub proof fn lemma_vertices_finite(edges: Set<Edge>)
    requires
        edges.finite(),
    ensures
        vertex_set(edges).finite(),
{
    let first = |e: Edge| e.0;
    let second = |e: Edge| e.1;
    edges.lemma_map_finite(first);
    edges.lemma_map_finite(second);
    let ends = edges.map(first).union(edges.map(second));
    assert(ends.finite());
    assert forall|v: VertexKey| vertex_set(edges).contains(v) implies ends.contains(v) by {
        if is_source(edges, v) {
            let w = choose|w: VertexKey| edges.contains((v, w));
            assert(first((v, w)) == v);
            assert(edges.map(first).contains(v));
        } else {
            let w = choose|w: VertexKey| edges.contains((w, v));
            assert(second((w, v)) == v);
            assert(edges.map(second).contains(v));
        }
    }
    vstd::set_lib::lemma_set_subset_finite(ends, vertex_set(edges));
}

/// A graph built by insertions of plain relations can be written and read back.
pub proof fn lemma_built_writable(tuples: Seq<Edge>) -> (order: Seq<VertexKey>)
    requires
        forall|k: int| 0 <= k < tuples.len() ==> is_plain_tuple(#[trigger] tuples[k]),
    ensures
        is_writable(built_from(tuples), order),
{
    let edges = built_from(tuples);
    lemma_built(tuples);
    lemma_vertices_finite(edges);
    let order = lemma_sorted_listing_exists(vertex_set(edges));
    assert forall|v: VertexKey| #[trigger] order.contains(v) <==> has_vertex(edges, v) by {
        assert(vertex_set(edges).contains(v) <==> has_vertex(edges, v));
    }
    assert forall|i: int| 0 <= i < order.len() implies is_plain_key(#[trigger] order[i]) by {
        assert(order.contains(order[i]));
        lemma_built_vertices_plain(tuples, order[i]);
    }
    assert forall|i: int| 0 <= i < order.len() implies lists_sources(
        edges,
        #[trigger] order[i],
        listed_sources(edges, order[i]),
    ) by {
        let v = order[i];
        let sources = Set::new(|u: VertexKey| edges.contains((u, v)) && u.id != wildcard_text());
        assert forall|u: VertexKey| sources.contains(u) implies vertex_set(edges).contains(u) by {
            assert(is_source(edges, u));
        }
        vstd::set_lib::lemma_set_subset_finite(vertex_set(edges), sources);
        let q = lemma_sorted_listing_exists(sources);
        assert forall|u: VertexKey| #[trigger]
            q.contains(u) <==> edges.contains((u, v)) && u.id != wildcard_text() by {
            assert(sources.contains(u) <==> edges.contains((u, v)) && u.id != wildcard_text());
        }
        assert(lists_sources(edges, v, q));
    }
    order
}

/// A graph that was built by insertions alone comes back from its snapshot
/// with the same edges, and so with the same answer to every query, provided
/// that the snapshot can hold the relations that were inserted: no field is
/// empty or holds white space or one of `:` `#` `,` `[` `]` `=`, and no source
/// has the wildcard as its id.
pub proof fn lemma_snapshot_round_trip(tuples: Seq<Edge>)
    requires
        forall|k: int| 0 <= k < tuples.len() ==> is_plain_tuple(#[trigger] tuples[k]),
    ensures
        loaded_edges(snapshot_text(built_from(tuples))) == built_from(tuples),
{
    let order = lemma_built_writable(tuples);
    lemma_snapshot_rebuilds(built_from(tuples), order);
    lemma_built_rebuilt(tuples);
}

} // verus!
