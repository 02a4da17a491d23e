use std::collections::BTreeSet;

use rebacdb::ObjectOrSet;
use rebacdb::RSet;
use rebacdb::RelationGraph;
use rebacdb::WILDCARD_ID;

type Key = (String, String, Option<String>);

fn key_of(v: &ObjectOrSet) -> Key {
    (v.namespace().to_string(), v.id().to_string(), v.relation().map(|r| r.to_string()))
}

fn source_of(key: &Key) -> ObjectOrSet {
    ObjectOrSet::from((key.0.as_str(), key.1.as_str(), key.2.as_deref()))
}

fn set_of(key: &Key) -> RSet {
    RSet::from((key.0.as_str(), key.1.as_str(), key.2.as_deref().unwrap()))
}

fn wildcard(key: &Key) -> Key {
    (key.0.clone(), WILDCARD_ID.to_string(), key.2.clone())
}

/// The edges of a graph, kept as a plain set.
#[derive(Default)]
struct Model {
    edges: BTreeSet<(Key, Key)>,
}

impl Model {
    fn insert(&mut self, src: &Key, dst: &Key) {
        if src.2.is_some() {
            self.edges.insert((wildcard(src), src.clone()));
        } else if src.1 != WILDCARD_ID {
            self.edges.insert((src.clone(), wildcard(src)));
        }
        self.edges.insert((wildcard(dst), dst.clone()));
        self.edges.insert((src.clone(), dst.clone()));
    }

    fn remove(&mut self, src: &Key, dst: &Key) {
        self.edges.remove(&(src.clone(), dst.clone()));
    }

    fn vertices(&self) -> BTreeSet<Key> {
        self.edges.iter().flat_map(|(a, b)| [a.clone(), b.clone()]).collect()
    }

    fn check(&self, src: &Key, dst: &Key, limit: Option<u32>) -> bool {
        let vertices = self.vertices();
        let start = if vertices.contains(src) {
            src.clone()
        } else if vertices.contains(&wildcard(src)) {
            wildcard(src)
        } else {
            return false;
        };
        let mut level: BTreeSet<Key> = BTreeSet::from([start]);
        let rounds = limit.map(|k| k as usize).unwrap_or(vertices.len() + 1);
        for _ in 0..rounds.min(vertices.len() + 1) {
            level = self
                .edges
                .iter()
                .filter(|(a, _)| level.contains(a))
                .map(|(_, b)| b.clone())
                .collect();
            if level.iter().any(|v| v == dst || *v == wildcard(dst)) {
                return true;
            }
        }
        false
    }

    fn expand(&self, dst: &Key) -> BTreeSet<(Key, usize)> {
        let vertices = self.vertices();
        let start = if vertices.contains(dst) {
            dst.clone()
        } else if vertices.contains(&wildcard(dst)) {
            wildcard(dst)
        } else {
            return BTreeSet::new();
        };
        let mut found: BTreeSet<(Key, usize)> = BTreeSet::new();
        let mut seen: BTreeSet<Key> = BTreeSet::new();
        let mut level: BTreeSet<Key> = BTreeSet::from([start]);
        let mut depth = 0;
        while !level.is_empty() {
            let mut next = BTreeSet::new();
            for (a, b) in &self.edges {
                if level.contains(b) && !seen.contains(a) {
                    if a.2.is_none() {
                        if !found.iter().any(|(o, _)| o == a) {
                            found.insert((a.clone(), depth));
                        }
                    } else {
                        next.insert(a.clone());
                    }
                }
            }
            for v in &next {
                seen.insert(v.clone());
            }
            level = next;
            depth += 1;
        }
        found
    }
}

struct Dice(u64);

impl Dice {
    fn roll(&mut self, sides: usize) -> usize {
        self.0 = self.0.wrapping_mul(6364136223846793005).wrapping_add(1442695040888963407);
        ((self.0 >> 33) as usize) % sides
    }
}

fn universe() -> Vec<Key> {
    let mut keys = Vec::new();
    for namespace in ["user", "group"] {
        for id in ["a", "b", WILDCARD_ID] {
            keys.push((namespace.to_string(), id.to_string(), None));
            for relation in ["member", "read"] {
                keys.push((namespace.to_string(), id.to_string(), Some(relation.to_string())));
            }
        }
    }
    keys
}

fn compare(graph: &RelationGraph, model: &Model, keys: &[Key]) {
    let vertices: BTreeSet<Key> = graph.vertices().iter().map(key_of).collect();
    assert_eq!(vertices, model.vertices());
    let sets: Vec<&Key> = keys.iter().filter(|k| k.2.is_some()).collect();
    for src in keys {
        assert_eq!(graph.has_vertex(&source_of(src)), model.vertices().contains(src));
        for dst in &sets {
            let (s, d) = (source_of(src), set_of(dst));
            assert_eq!(graph.has(&s, &d), model.edges.contains(&(src.clone(), (*dst).clone())));
            for limit in [None, Some(0), Some(1), Some(2), Some(3)] {
                assert_eq!(
                    graph.check(&s, &d, limit),
                    model.check(src, dst, limit),
                    "check {src:?} {dst:?} {limit:?}"
                );
            }
        }
    }
    for dst in &sets {
        let expanded = graph.expand(&set_of(dst));
        let found: BTreeSet<(Key, usize)> = expanded
            .iter()
            .map(|(o, path)| ((o.namespace().to_string(), o.id().to_string(), None), path.len()))
            .collect();
        assert_eq!(found.len(), expanded.len());
        assert_eq!(found, model.expand(dst), "expand {dst:?}");
    }
}

#[test]
fn graph_agrees_with_a_plain_set_of_edges() {
    let keys = universe();
    let sets: Vec<Key> = keys.iter().filter(|k| k.2.is_some()).cloned().collect();
    for seed in 0..6u64 {
        let mut dice = Dice(seed);
        let mut graph = RelationGraph::new();
        let mut model = Model::default();
        for step in 0..40 {
            let src = keys[dice.roll(keys.len())].clone();
            let dst = sets[dice.roll(sets.len())].clone();
            if dice.roll(4) == 0 {
                graph.remove(&source_of(&src), &set_of(&dst));
                model.remove(&src, &dst);
            } else {
                graph.insert(&source_of(&src), &set_of(&dst));
                model.insert(&src, &dst);
            }
            if step % 8 == 7 {
                compare(&graph, &model, &keys);
            }
        }
        compare(&graph, &model, &keys);
    }
}

#[test]
fn graphs_built_by_insertions_come_back_from_their_snapshots() {
    let keys: Vec<Key> =
        universe().into_iter().filter(|k| k.1 != WILDCARD_ID || k.2.is_some()).collect();
    let sources: Vec<Key> = keys.iter().filter(|k| k.1 != WILDCARD_ID).cloned().collect();
    let sets: Vec<Key> = keys.iter().filter(|k| k.2.is_some()).cloned().collect();
    for seed in 10..16u64 {
        let mut dice = Dice(seed);
        let mut graph = RelationGraph::new();
        for _ in 0..25 {
            let src = sources[dice.roll(sources.len())].clone();
            let dst = sets[dice.roll(sets.len())].clone();
            graph.insert(&source_of(&src), &set_of(&dst));
        }
        let text = graph.write_savefile();
        let loaded = RelationGraph::read_savefile(&text);
        assert_eq!(loaded.vertices(), graph.vertices());
        assert_eq!(loaded.write_savefile(), text);
        for src in &keys {
            for dst in &sets {
                let (s, d) = (source_of(src), set_of(dst));
                assert_eq!(loaded.has(&s, &d), graph.has(&s, &d));
                assert_eq!(loaded.check(&s, &d, None), graph.check(&s, &d, None));
            }
        }
    }
}
