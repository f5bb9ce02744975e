//! A dependency graph over named nodes, and its scheduling layers.

pub mod layering;

use vstd::prelude::*;
use crate::text::{copy_strings, holds_string, texts};
use layering::{
    depends_on, in_layer, is_acyclic, is_cycle, is_layering, is_placing, is_subsequence,
    leans_on_layer_before, lemma_layered_is_acyclic, lemma_repeat,
};

verus! {

/// Why an operation on a [`DAG`] failed.
#[derive(Debug, PartialEq, Eq)]
pub enum DagError {
    /// No node of this name has been added.
    NodeNotFound(String),
    /// The dependencies form a cycle, so no order of execution exists.
    CycleDetected,
}
/// The layers that the vectors hold.
pub open spec fn layer_texts(layers: Seq<Vec<String>>) -> Seq<Seq<Seq<char>>> {
    Seq::new(layers.len(), |k: int| texts(layers[k]@))
}

/// How many of the nodes have not been placed.
spec fn pending(placed: Seq<bool>) -> nat
    decreases placed.len(),
{
    if placed.len() == 0 {
        0
    } else {
        pending(placed.drop_last()) + if placed.last() {
            0nat
        } else {
            1nat
        }
    }
}

proof fn lemma_pending_place(placed: Seq<bool>, at: int)
    requires
        0 <= at < placed.len(),
        !placed[at],
    ensures
        pending(placed) == pending(placed.update(at, true)) + 1,
    decreases placed.len(),
{
    let next = placed.update(at, true);
    if at == placed.len() - 1 {
        assert(next.drop_last() =~= placed.drop_last());
    } else {
        assert(next.drop_last() =~= placed.drop_last().update(at, true));
        lemma_pending_place(placed.drop_last(), at);
    }
}

proof fn lemma_pending_count(placed: Seq<bool>, at: int)
    requires
        0 <= at < placed.len(),
        !placed[at],
    ensures
        pending(placed) > 0,
    decreases placed.len(),
{
    if at < placed.len() - 1 {
        lemma_pending_count(placed.drop_last(), at);
    }
}

proof fn lemma_pending_full(placed: Seq<bool>)
    requires
        forall|i: int| 0 <= i < placed.len() ==> placed[i],
    ensures
        pending(placed) == 0,
    decreases placed.len(),
{
    if placed.len() > 0 {
        lemma_pending_full(placed.drop_last());
    }
}

proof fn lemma_pending_some(placed: Seq<bool>) -> (at: int)
    requires
        pending(placed) > 0,
    ensures
        0 <= at < placed.len(),
        !placed[at],
    decreases placed.len(),
{
    if !placed.last() {
        placed.len() - 1
    } else {
        lemma_pending_some(placed.drop_last())
    }
}

fn is_free(row: &Vec<usize>, placed: &Vec<bool>) -> (free: bool)
    requires
        forall|a: int| 0 <= a < row@.len() ==> #[trigger] row@[a] < placed@.len(),
    ensures
        free == forall|a: int| 0 <= a < row@.len() ==> placed@[#[trigger] row@[a] as int],
{
    let mut at: usize = 0;
    while at < row.len()
        invariant
            at <= row@.len(),
            forall|a: int| 0 <= a < row@.len() ==> #[trigger] row@[a] < placed@.len(),
            forall|a: int| 0 <= a < at ==> placed@[#[trigger] row@[a] as int],
        decreases row@.len() - at,
    {
        if !placed[row[at]] {
            return false;
        }
        at += 1;
    }
    true
}

fn all_placed(placed: &Vec<bool>) -> (all: bool)
    ensures
        all == (pending(placed@) == 0),
        all ==> forall|i: int| 0 <= i < placed@.len() ==> placed@[i],
{
    let mut at: usize = 0;
    while at < placed.len()
        invariant
            at <= placed@.len(),
            forall|i: int| 0 <= i < at ==> placed@[i],
        decreases placed@.len() - at,
    {
        if !placed[at] {
            proof {
                lemma_pending_count(placed@, at as int);
            }
            return false;
        }
        at += 1;
    }
    proof {
        lemma_pending_full(placed@);
    }
    true
}

/// `i` is one of the first `upto` items of `picked`.
spec fn among(picked: Seq<usize>, upto: int, i: int) -> bool {
    exists|b: int| 0 <= b < upto && #[trigger] picked[b] as int == i
}

struct Node {
    name: String,
    deps: Vec<String>,
}

/// A directed graph of named nodes, each with the list of names that it was
/// declared to depend on. A name may be listed more than once, and need not be
/// the name of a node.
pub struct DAG {
    nodes: Vec<Node>,
}

impl View for DAG {
    type V = Map<Seq<char>, Seq<Seq<char>>>;

    /// The declared dependencies of each node, by the node's name.
    closed spec fn view(&self) -> Map<Seq<char>, Seq<Seq<char>>> {
        Map::new(
            |name: Seq<char>| self.order().contains(name),
            |name: Seq<char>| texts(self.nodes@[self.order().index_of(name)].deps@),
        )
    }
}

impl DAG {
    /// The names of the nodes, in the order in which they were first added.
    pub closed spec fn order(&self) -> Seq<Seq<char>> {
        Seq::new(self.nodes@.len(), |i: int| self.nodes@[i].name@)
    }

    #[verifier::type_invariant]
    spec fn distinct(&self) -> bool {
        self.order().no_duplicates()
    }

    /// The nodes of the graph are the names in `order`.
    pub proof fn lemma_nodes_in_order(&self)
        ensures
            forall|name: Seq<char>| self@.dom().contains(name) <==> self.order().contains(name),
    {
    }

    proof fn lemma_node(&self, at: int)
        requires
            self.order().no_duplicates(),
            0 <= at < self.nodes@.len(),
        ensures
            self.order()[at] == self.nodes@[at].name@,
            self@.dom().contains(self.nodes@[at].name@),
            self@[self.nodes@[at].name@] == texts(self.nodes@[at].deps@),
    {
        let name = self.nodes@[at].name@;
        assert(self.order()[at] == name);
        assert(self.order().contains(name));
        let found = self.order().index_of(name);
        assert(self.order()[found] == name);
    }

    /// Creates a graph without nodes.
    pub fn new() -> (graph: Self)
        ensures
            graph@ == Map::<Seq<char>, Seq<Seq<char>>>::empty(),
            graph.order() == Seq::<Seq<char>>::empty(),
    {
        let graph = DAG { nodes: Vec::new() };
        assert(graph.order() =~= Seq::empty());
        assert(graph@ =~= Map::empty());
        graph
    }

    fn position(&self, name: &String) -> (found: Option<usize>)
        ensures
            match found {
                Some(at) => at < self.nodes@.len() && self.nodes@[at as int].name@ == name@,
                None => !self.order().contains(name@),
            },
    {
        let mut at: usize = 0;
        while at < self.nodes.len()
            invariant
                at <= self.nodes@.len(),
                forall|i: int| 0 <= i < at ==> self.nodes@[i].name@ != name@,
            decreases self.nodes@.len() - at,
        {
            if self.nodes[at].name == *name {
                return Some(at);
            }
            at += 1;
        }
        None
    }

    /// Adds a node with the dependencies given, or with none. Where a node of
    /// that name is there already, its dependencies are replaced.
    pub fn add_node(&mut self, name: String, deps: Option<Vec<String>>)
        ensures
            final(self)@ == old(self)@.insert(
                name@,
                match deps {
                    Some(deps) => texts(deps@),
                    None => Seq::empty(),
                },
            ),
            final(self).order() == if old(self)@.dom().contains(name@) {
                old(self).order()
            } else {
                old(self).order().push(name@)
            },
            final(self).order().no_duplicates(),
    {
        proof {
            use_type_invariant(&*self);
        }
        let ghost before = *self;
        let ghost given = deps;
        let deps = match deps {
            Some(deps) => deps,
            None => Vec::new(),
        };
        let ghost listed = texts(deps@);
        let ghost id = name@;
        let place = self.position(&name);
        assert(place matches Some(at) ==> before.order()[at as int] == id);
        let mut nodes: Vec<Node> = Vec::new();
        std::mem::swap(&mut self.nodes, &mut nodes);
        match place {
            Some(at) => {
                nodes.set(at, Node { name, deps });
            },
            None => {
                nodes.push(Node { name, deps });
            },
        }
        let ghost after = Seq::new(nodes@.len(), |i: int| nodes@[i].name@);
        assert(after =~= if place is Some {
            before.order()
        } else {
            before.order().push(id)
        });
        assert(after.no_duplicates());
        self.nodes = nodes;
        assert(self.order() == after);
        proof {
            let at = match place {
                Some(at) => at as int,
                None => before.order().len() as int,
            };
            assert(self.order()[at] == id);
            assert(self.nodes@[at].deps@ == deps@);
            assert(given is None ==> listed =~= Seq::empty());
            assert forall|other: Seq<char>| #[trigger]
                self@.dom().contains(other) <==> before@.insert(id, listed).dom().contains(
                    other,
                ) by {
                if other != id && self.order().contains(other) {
                    let i = self.order().index_of(other);
                    assert(before.order()[i] == other);
                }
                if other != id && before.order().contains(other) {
                    let i = before.order().index_of(other);
                    assert(self.order()[i] == other);
                }
            }
            assert forall|other: Seq<char>| #[trigger]
                self@.dom().contains(other) implies self@[other] == before@.insert(
                id,
                listed,
            )[other] by {
                let i = self.order().index_of(other);
                assert(self.order()[i] == other);
                self.lemma_node(i);
                if other != id {
                    assert(i != at);
                    assert(before.order()[i] == other);
                    before.lemma_node(i);
                } else {
                    assert(i == at);
                }
            }
            assert(self@ =~= before@.insert(id, listed));
        }
    }

    /// Declares that the node `name` depends on `dep`, which need not be a node.
    /// Fails, and changes nothing, where `name` is no node.
    pub fn add_dep(&mut self, name: String, dep: String) -> (result: Result<(), DagError>)
        ensures
            final(self).order() == old(self).order(),
            match result {
                Ok(_) => {
                    &&& old(self)@.dom().contains(name@)
                    &&& final(self)@ == old(self)@.insert(name@, old(self)@[name@].push(dep@))
                },
                Err(error) => {
                    &&& !old(self)@.dom().contains(name@)
                    &&& final(self)@ == old(self)@
                    &&& error matches DagError::NodeNotFound(id)
                    &&& id@ == name@
                },
            },
    {
        proof {
            use_type_invariant(&*self);
        }
        let ghost before = *self;
        let ghost id = name@;
        let at = match self.position(&name) {
            Some(at) => at,
            None => {
                return Err(DagError::NodeNotFound(name));
            },
        };
        assert(before.order()[at as int] == id);
        proof {
            before.lemma_node(at as int);
        }
        let ghost listed = before@[id].push(dep@);
        let mut nodes: Vec<Node> = Vec::new();
        std::mem::swap(&mut self.nodes, &mut nodes);
        nodes[at].deps.push(dep);
        assert(texts(nodes@[at as int].deps@) =~= listed);
        let ghost after = Seq::new(nodes@.len(), |i: int| nodes@[i].name@);
        assert(after =~= before.order());
        self.nodes = nodes;
        proof {
            assert forall|other: Seq<char>| #[trigger]
                self@.dom().contains(other) implies self@[other] == before@.insert(
                id,
                listed,
            )[other] by {
                let i = self.order().index_of(other);
                assert(self.order()[i] == other);
                self.lemma_node(i);
                if other != id {
                    before.lemma_node(i);
                }
            }
            assert(self@ =~= before@.insert(id, listed));
        }
        Ok(())
    }

    /// The dependencies that were declared for the node `name`, in the order of
    /// their declaration. Fails where `name` is no node.
    pub fn deps(&self, name: String) -> (result: Result<Vec<String>, DagError>)
        ensures
            match result {
                Ok(deps) => self@.dom().contains(name@) && texts(deps@) == self@[name@],
                Err(error) => {
                    &&& !self@.dom().contains(name@)
                    &&& error matches DagError::NodeNotFound(id)
                    &&& id@ == name@
                },
            },
    {
        proof {
            use_type_invariant(self);
        }
        match self.position(&name) {
            Some(at) => {
                proof {
                    self.lemma_node(at as int);
                }
                Ok(copy_strings(&self.nodes[at].deps))
            },
            None => Err(DagError::NodeNotFound(name)),
        }
    }

    /// The nodes whose declared dependencies hold `name`, in the order in which
    /// the nodes were added.
    pub fn reverse_deps(&self, name: String) -> (dependents: Vec<String>)
        ensures
            texts(dependents@) == self.order().filter(
                |node: Seq<char>| self@[node].contains(name@),
            ),
    {
        proof {
            use_type_invariant(self);
        }
        let ghost depends = |node: Seq<char>| self@[node].contains(name@);
        let mut dependents: Vec<String> = Vec::new();
        let mut at: usize = 0;
        assert(self.order().take(0).filter(depends) =~= Seq::empty());
        while at < self.nodes.len()
            invariant
                at <= self.nodes@.len(),
                self.order().no_duplicates(),
                depends == |node: Seq<char>| self@[node].contains(name@),
                texts(dependents@) == self.order().take(at as int).filter(depends),
            decreases self.nodes@.len() - at,
        {
            proof {
                self.lemma_node(at as int);
                let seen = self.order().take(at as int + 1);
                assert(seen.drop_last() =~= self.order().take(at as int));
                assert(seen.last() == self.nodes@[at as int].name@);
                reveal(Seq::filter);
            }
            if holds_string(&self.nodes[at].deps, &name) {
                dependents.push(self.nodes[at].name.clone());
                assert(texts(dependents@) =~= self.order().take(at as int).filter(depends).push(
                    self.nodes@[at as int].name@,
                ));
            }
            at += 1;
        }
        assert(self.order().take(at as int) =~= self.order());
        dependents
    }

    /// Node `i` lists the name of node `j` among its dependencies.
    spec fn edge(&self, i: int, j: int) -> bool {
        &&& 0 <= i < self.nodes@.len()
        &&& 0 <= j < self.nodes@.len()
        &&& texts(self.nodes@[i].deps@).contains(self.nodes@[j].name@)
    }

    proof fn lemma_edge(&self, i: int, j: int)
        requires
            self.order().no_duplicates(),
            0 <= i < self.nodes@.len(),
            0 <= j < self.nodes@.len(),
        ensures
            self.edge(i, j) <==> depends_on(self@, self.order()[i], self.order()[j]),
    {
        self.lemma_node(i);
        self.lemma_node(j);
    }

    /// Row `i` of `links` holds the nodes that node `i` depends on.
    spec fn linked(&self, links: Seq<Vec<usize>>) -> bool {
        &&& links.len() == self.nodes@.len()
        &&& forall|i: int, a: int|
            0 <= i < links.len() && 0 <= a < links[i]@.len() ==> self.edge(
                i,
                #[trigger] links[i]@[a] as int,
            )
        &&& forall|i: int, j: int| #[trigger]
            self.edge(i, j) ==> links[i]@.contains(j as usize)
    }

    /// Node `i` depends on a node that has not been placed.
    spec fn blocked(&self, placed: Seq<bool>, i: int) -> bool {
        exists|j: int| #[trigger] self.edge(i, j) && !placed[j]
    }

    /// Node `i` depends on a node of the level just below its own.
    spec fn tight(&self, level: Seq<int>, i: int) -> bool {
        exists|j: int| #[trigger] self.edge(i, j) && level[j] == level[i] - 1
    }

    /// Node `i` depends on a node that has no level yet or has the last one.
    spec fn waits(&self, level: Seq<int>, height: int, i: int) -> bool {
        exists|j: int| #[trigger] self.edge(i, j) && (level[j] < 0 || level[j] == height - 1)
    }

    /// Every node that node `i` depends on has been placed.
    spec fn free(&self, placed: Seq<bool>, i: int) -> bool {
        forall|j: int| #[trigger] self.edge(i, j) ==> placed[j]
    }

    fn row(&self, at: usize) -> (row: Vec<usize>)
        requires
            at < self.nodes@.len(),
        ensures
            forall|a: int| 0 <= a < row@.len() ==> self.edge(at as int, #[trigger] row@[a] as int),
            forall|j: int| #[trigger] self.edge(at as int, j) ==> row@.contains(j as usize),
    {
        proof {
            use_type_invariant(self);
        }
        let deps = &self.nodes[at].deps;
        let ghost listed = texts(deps@);
        let mut row: Vec<usize> = Vec::new();
        let mut seen: usize = 0;
        while seen < deps.len()
            invariant
                at < self.nodes@.len(),
                self.order().no_duplicates(),
                deps == &self.nodes@[at as int].deps,
                listed == texts(deps@),
                seen <= deps.len(),
                forall|a: int|
                    0 <= a < row@.len() ==> self.edge(at as int, #[trigger] row@[a] as int),
                forall|j: int, d: int|
                    0 <= j < self.nodes@.len() && 0 <= d < seen && #[trigger] listed[d]
                        == #[trigger] self.order()[j] ==> row@.contains(j as usize),
            decreases deps.len() - seen,
        {
            let ghost before = row@;
            match self.position(&deps[seen]) {
                Some(j) => {
                    assert(listed[seen as int] == self.nodes@[j as int].name@);
                    row.push(j);
                    assert(row@[before.len() as int] == j);
                    assert forall|k: int, d: int|
                        0 <= k < self.nodes@.len() && 0 <= d < seen + 1 && #[trigger] listed[d]
                            == #[trigger] self.order()[k] implies row@.contains(k as usize) by {
                        if d < seen {
                            assert(before.contains(k as usize));
                            let a = before.index_of(k as usize);
                            assert(row@[a] == k as usize);
                        } else {
                            assert(self.order()[j as int] == self.order()[k]);
                            assert(k == j);
                        }
                    }
                },
                None => {
                    assert forall|k: int|
                        0 <= k < self.nodes@.len() implies listed[seen as int]
                        != #[trigger] self.order()[k] by {
                        if listed[seen as int] == self.order()[k] {
                            assert(self.order().contains(listed[seen as int]));
                        }
                    }
                },
            }
            seen += 1;
        }
        proof {
            assert forall|j: int| #[trigger] self.edge(at as int, j) implies row@.contains(
                j as usize,
            ) by {
                let d = listed.index_of(self.nodes@[j].name@);
                assert(listed[d] == self.order()[j]);
            }
        }
        row
    }

    fn links(&self) -> (links: Vec<Vec<usize>>)
        ensures
            self.linked(links@),
    {
        let mut links: Vec<Vec<usize>> = Vec::new();
        let mut at: usize = 0;
        while at < self.nodes.len()
            invariant
                at <= self.nodes@.len(),
                links@.len() == at,
                forall|i: int, a: int|
                    0 <= i < links@.len() && 0 <= a < links@[i]@.len() ==> self.edge(
                        i,
                        #[trigger] links@[i]@[a] as int,
                    ),
                forall|i: int, j: int|
                    i < at && #[trigger] self.edge(i, j) ==> links@[i]@.contains(j as usize),
            decreases self.nodes@.len() - at,
        {
            let row = self.row(at);
            links.push(row);
            at += 1;
        }
        links
    }

    /// The nodes that have not been placed and depend on placed nodes only, in
    /// rising order.
    fn pick(&self, links: &Vec<Vec<usize>>, placed: &Vec<bool>) -> (picked: Vec<usize>)
        requires
            self.linked(links@),
            placed@.len() == self.nodes@.len(),
        ensures
            forall|a: int|
                0 <= a < picked@.len() ==> {
                    &&& (#[trigger] picked@[a]) < self.nodes@.len()
                    &&& !placed@[picked@[a] as int]
                    &&& self.free(placed@, picked@[a] as int)
                },
            forall|a: int, b: int|
                0 <= a < b < picked@.len() ==> #[trigger] picked@[a] < #[trigger] picked@[b],
            forall|i: int|
                0 <= i < self.nodes@.len() && !placed@[i] && #[trigger] self.free(placed@, i)
                    ==> picked@.contains(i as usize),
            forall|i: int|
                0 <= i < self.nodes@.len() && !placed@[i] && !picked@.contains(i as usize)
                    ==> #[trigger] self.blocked(placed@, i),
    {
        let mut picked: Vec<usize> = Vec::new();
        let mut at: usize = 0;
        while at < self.nodes.len()
            invariant
                self.linked(links@),
                placed@.len() == self.nodes@.len(),
                at <= self.nodes@.len(),
                forall|a: int|
                    0 <= a < picked@.len() ==> {
                        &&& (#[trigger] picked@[a]) < at
                        &&& !placed@[picked@[a] as int]
                        &&& self.free(placed@, picked@[a] as int)
                    },
                forall|a: int, b: int|
                    0 <= a < b < picked@.len() ==> #[trigger] picked@[a] < #[trigger] picked@[b],
                forall|i: int|
                    0 <= i < at && !placed@[i] && #[trigger] self.free(placed@, i)
                        ==> picked@.contains(i as usize),
                forall|i: int|
                    0 <= i < at && !placed@[i] && !picked@.contains(i as usize)
                        ==> #[trigger] self.blocked(placed@, i),
            decreases self.nodes@.len() - at,
        {
            let ghost before = picked@;
            let mut free = false;
            if !placed[at] {
                let row = &links[at];
                assert forall|a: int| 0 <= a < row@.len() implies #[trigger] row@[a]
                    < placed@.len() by {
                    assert(self.edge(at as int, row@[a] as int));
                }
                free = is_free(row, placed);
                proof {
                    if free {
                        assert forall|j: int| #[trigger]
                            self.edge(at as int, j) implies placed@[j] by {
                            let a = row@.index_of(j as usize);
                            assert(row@[a] == j as usize);
                        }
                    } else {
                        let a = choose|a: int|
                            0 <= a < row@.len() && !placed@[#[trigger] row@[a] as int];
                        assert(self.edge(at as int, row@[a] as int));
                        assert(self.blocked(placed@, at as int));
                    }
                }
            }
            if free {
                picked.push(at);
                assert(picked@[before.len() as int] == at);
            }
            proof {
                assert forall|i: int|
                    0 <= i < at + 1 && !placed@[i] && #[trigger] self.free(placed@, i)
                    implies picked@.contains(i as usize) by {
                    if i < at {
                        let a = before.index_of(i as usize);
                        assert(picked@[a] == i as usize);
                    }
                }
                assert forall|i: int|
                    0 <= i < at + 1 && !placed@[i] && !picked@.contains(
                        i as usize,
                    ) implies #[trigger] self.blocked(placed@, i) by {
                    if i < at {
                        if before.contains(i as usize) {
                            let a = before.index_of(i as usize);
                            assert(picked@[a] == i as usize);
                        }
                    }
                }
            }
            at += 1;
        }
        picked
    }

    /// `level` gives the layer of each node that has been placed in one of the
    /// first `height` layers, and a negative number to the others.
    spec fn leveled(&self, level: Seq<int>, height: int) -> bool {
        &&& level.len() == self.nodes@.len()
        &&& forall|i: int| 0 <= i < level.len() ==> -1 <= #[trigger] level[i] < height
        &&& forall|i: int, j: int|
            #[trigger] self.edge(i, j) && level[i] >= 0 ==> 0 <= level[j] < level[i]
        &&& forall|i: int| 0 <= i < level.len() && level[i] > 0 ==> #[trigger] self.tight(level, i)
        &&& forall|i: int|
            0 <= i < level.len() && height > 0 && level[i] < 0 ==> #[trigger] self.waits(
                level,
                height,
                i,
            )
    }

    /// Layer `k` lists the nodes at the places `place`, which are those of level `k`.
    spec fn layer_listed(&self, level: Seq<int>, k: int, place: Seq<int>, layer: Seq<Seq<char>>) -> bool {
        &&& is_placing(place, layer, self.order())
        &&& forall|a: int| 0 <= a < place.len() ==> level[#[trigger] place[a]] == k
    }

    /// The layers list the placed nodes, each in the layer of its level.
    spec fn listed(&self, level: Seq<int>, places: Seq<Seq<int>>, layers: Seq<Seq<Seq<char>>>) -> bool {
        &&& places.len() == layers.len()
        &&& forall|k: int| 0 < k < layers.len() ==> (#[trigger] layers[k]).len() > 0
        &&& forall|k: int|
            0 <= k < places.len() ==> self.layer_listed(level, k, #[trigger] places[k], layers[k])
        &&& forall|i: int|
            0 <= i < level.len() && #[trigger] level[i] >= 0 ==> places[level[i]].contains(i)
    }

    /// One more layer: the nodes of `picked` take the level `height`.
    proof fn lemma_round(
        &self,
        level: Seq<int>,
        height: int,
        placed: Seq<bool>,
        picked: Seq<usize>,
        next: Seq<int>,
    )
        requires
            self.leveled(level, height),
            height >= 0,
            level.len() <= usize::MAX,
            placed.len() == level.len(),
            forall|i: int| 0 <= i < level.len() ==> placed[i] == (#[trigger] level[i] >= 0),
            forall|a: int|
                0 <= a < picked.len() ==> {
                    &&& (#[trigger] picked[a]) < self.nodes@.len()
                    &&& level[picked[a] as int] < 0
                    &&& forall|j: int| #[trigger] self.edge(picked[a] as int, j) ==> level[j] >= 0
                },
            forall|i: int|
                0 <= i < level.len() && level[i] < 0 && !picked.contains(i as usize)
                    ==> #[trigger] self.blocked(placed, i),
            next.len() == level.len(),
            forall|i: int|
                0 <= i < level.len() ==> #[trigger] next[i] == if picked.contains(i as usize) {
                    height
                } else {
                    level[i]
                },
        ensures
            self.leveled(next, height + 1),
    {
        assert forall|i: int| 0 <= i < level.len() && picked.contains(i as usize) implies level[i]
            < 0 && forall|j: int| #[trigger] self.edge(i, j) ==> level[j] >= 0 by {
            let a = picked.index_of(i as usize);
            assert(picked[a] as int == i);
        }
        assert forall|i: int, j: int| #[trigger] self.edge(i, j) && next[i] >= 0 implies 0
            <= next[j] < next[i] by {
            assert(next[j] == if picked.contains(j as usize) {
                height
            } else {
                level[j]
            });
            if picked.contains(i as usize) {
                assert(level[j] >= 0);
            } else {
                assert(level[i] >= 0);
            }
        }
        assert forall|i: int| 0 <= i < next.len() && next[i] > 0 implies #[trigger] self.tight(
            next,
            i,
        ) by {
            if picked.contains(i as usize) {
                assert(height > 0);
                assert(self.waits(level, height, i));
                let j = choose|j: int|
                    #[trigger] self.edge(i, j) && (level[j] < 0 || level[j] == height - 1);
                assert(level[j] >= 0);
                assert(next[j] == level[j]);
                assert(self.edge(i, j) && next[j] == next[i] - 1);
            } else {
                assert(level[i] > 0);
                assert(self.tight(level, i));
                let j = choose|j: int| #[trigger] self.edge(i, j) && level[j] == level[i] - 1;
                assert(next[j] == level[j]);
                assert(self.edge(i, j) && next[j] == next[i] - 1);
            }
        }
        assert forall|i: int| 0 <= i < next.len() && next[i] < 0 implies #[trigger] self.waits(
            next,
            height + 1,
            i,
        ) by {
            assert(!picked.contains(i as usize));
            assert(level[i] < 0);
            assert(self.blocked(placed, i));
            let j = choose|j: int| #[trigger] self.edge(i, j) && !placed[j];
            assert(placed[j] == (level[j] >= 0));
            assert(next[j] == if picked.contains(j as usize) {
                height
            } else {
                level[j]
            });
            assert(self.edge(i, j) && (next[j] < 0 || next[j] == height));
        }
    }

    /// The node that is reached from `start` in `steps` steps, each from a
    /// node to a node that it depends on and that has not been placed.
    spec fn walk(&self, placed: Seq<bool>, start: int, steps: nat) -> int
        decreases steps,
    {
        if steps == 0 {
            start
        } else {
            let from = self.walk(placed, start, (steps - 1) as nat);
            choose|j: int| #[trigger] self.edge(from, j) && !placed[j]
        }
    }

    /// Where each node that is left depends on another that is left, a walk
    /// from a node that is left stays among those.
    proof fn lemma_walk(&self, placed: Seq<bool>, start: int, steps: nat)
        requires
            placed.len() == self.nodes@.len(),
            0 <= start < placed.len(),
            !placed[start],
            forall|i: int| 0 <= i < placed.len() && !placed[i] ==> #[trigger] self.blocked(placed, i),
        ensures
            0 <= self.walk(placed, start, steps) < placed.len(),
            !placed[self.walk(placed, start, steps)],
            steps > 0 ==> self.edge(
                self.walk(placed, start, (steps - 1) as nat),
                self.walk(placed, start, steps),
            ),
        decreases steps,
    {
        if steps > 0 {
            self.lemma_walk(placed, start, (steps - 1) as nat);
            let from = self.walk(placed, start, (steps - 1) as nat);
            assert(self.blocked(placed, from));
        }
    }

    /// Where a node is left, and each node that is left depends on another that
    /// is left, the graph has a cycle.
    proof fn lemma_stuck(&self, placed: Seq<bool>)
        requires
            self.order().no_duplicates(),
            placed.len() == self.nodes@.len(),
            pending(placed) > 0,
            forall|i: int| 0 <= i < placed.len() && !placed[i] ==> #[trigger] self.blocked(placed, i),
        ensures
            !is_acyclic(self@),
    {
        let start = lemma_pending_some(placed);
        let count = placed.len();
        let walked = Seq::new(count + 1, |k: int| self.walk(placed, start, k as nat));
        assert forall|k: int| 0 <= k < walked.len() implies 0 <= #[trigger] walked[k] < count by {
            self.lemma_walk(placed, start, k as nat);
        }
        let (a, b) = lemma_repeat(walked, count);
        let chain = Seq::new((b - a + 1) as nat, |k: int| self.order()[walked[a + k]]);
        assert forall|k: int| 0 <= k < chain.len() - 1 implies depends_on(
            self@,
            #[trigger] chain[k],
            chain[k + 1],
        ) by {
            self.lemma_walk(placed, start, (a + k) as nat);
            self.lemma_walk(placed, start, (a + k + 1) as nat);
            self.lemma_edge(walked[a + k], walked[a + k + 1]);
        }
        assert(chain.first() == chain.last());
        assert(is_cycle(self@, chain));
    }

    /// Levels for all nodes, listed in layers, make a layering.
    proof fn lemma_layering(&self, level: Seq<int>, places: Seq<Seq<int>>, layers: Seq<Seq<Seq<char>>>)
        requires
            self.order().no_duplicates(),
            layers.len() >= 1,
            self.leveled(level, layers.len() as int),
            self.listed(level, places, layers),
            forall|i: int| 0 <= i < level.len() ==> #[trigger] level[i] >= 0,
        ensures
            is_layering(self@, self.order(), layers),
    {
        let graph = self@;
        let order = self.order();
        assert forall|node: Seq<char>| #[trigger] graph.dom().contains(node) implies exists|k: int|
            in_layer(layers, k, node) by {
            let i = order.index_of(node);
            self.lemma_placed(level, places, layers, i);
            assert(in_layer(layers, level[i], node));
        }
        assert forall|node: Seq<char>, k: int, other: int|
            #[trigger] in_layer(layers, k, node) && #[trigger] in_layer(
                layers,
                other,
                node,
            ) implies k == other by {
            let i = self.lemma_found(level, places, layers, k, node);
            let j = self.lemma_found(level, places, layers, other, node);
            assert(i == j);
        }
        assert forall|k: int| 0 <= k < layers.len() implies is_subsequence(
            #[trigger] layers[k],
            order,
        ) by {
            assert(self.layer_listed(level, k, places[k], layers[k]));
            assert(is_placing(places[k], layers[k], order));
        }
        assert forall|k: int, node: Seq<char>, dep: Seq<char>|
            #[trigger] in_layer(layers, k, node) && #[trigger] depends_on(
                graph,
                node,
                dep,
            ) implies exists|below: int| below < k && in_layer(layers, below, dep) by {
            let i = self.lemma_found(level, places, layers, k, node);
            let j = order.index_of(dep);
            assert(order[j] == dep);
            self.lemma_edge(i, j);
            self.lemma_placed(level, places, layers, j);
            assert(level[j] < k && in_layer(layers, level[j], dep));
        }
        assert forall|k: int, node: Seq<char>|
            0 < k && in_layer(layers, k, node) implies #[trigger] leans_on_layer_before(
            graph,
            layers,
            k,
            node,
        ) by {
            let i = self.lemma_found(level, places, layers, k, node);
            assert(level[i] > 0);
            assert(self.tight(level, i));
            let j = choose|j: int| #[trigger] self.edge(i, j) && level[j] == level[i] - 1;
            self.lemma_edge(i, j);
            self.lemma_placed(level, places, layers, j);
            assert(depends_on(graph, node, order[j]) && in_layer(layers, k - 1, order[j]));
        }
    }

    /// A placed node stands in the layer of its level.
    proof fn lemma_placed(&self, level: Seq<int>, places: Seq<Seq<int>>, layers: Seq<Seq<Seq<char>>>, i: int)
        requires
            self.leveled(level, layers.len() as int),
            self.listed(level, places, layers),
            0 <= i < level.len(),
            level[i] >= 0,
        ensures
            in_layer(layers, level[i], self.order()[i]),
    {
        let k = level[i];
        assert(places[k].contains(i));
        let a = places[k].index_of(i);
        assert(self.layer_listed(level, k, places[k], layers[k]));
        assert(places[k][a] == i);
        assert(layers[k][a] == self.order()[i]);
    }

    /// A name that stands in layer `k` is the name of a node of level `k`.
    proof fn lemma_found(&self, level: Seq<int>, places: Seq<Seq<int>>, layers: Seq<Seq<Seq<char>>>, k: int, node: Seq<char>) -> (i: int)
        requires
            self.order().no_duplicates(),
            self.leveled(level, layers.len() as int),
            self.listed(level, places, layers),
            in_layer(layers, k, node),
        ensures
            0 <= i < level.len(),
            self.order()[i] == node,
            i == self.order().index_of(node),
            level[i] == k,
            self@.dom().contains(node),
    {
        let a = layers[k].index_of(node);
        assert(layers[k][a] == node);
        assert(self.layer_listed(level, k, places[k], layers[k]));
        let i = places[k][a];
        assert(self.order()[i] == node);
        assert(self.order().contains(node));
        i
    }

    /// The layers stay listed when the nodes of `picked` make up one more.
    proof fn lemma_listed_round(
        &self,
        level: Seq<int>,
        places: Seq<Seq<int>>,
        layers: Seq<Seq<Seq<char>>>,
        picked: Seq<usize>,
        layer: Seq<Seq<char>>,
        next: Seq<int>,
    )
        requires
            self.leveled(level, layers.len() as int),
            self.listed(level, places, layers),
            level.len() <= usize::MAX,
            forall|a: int|
                0 <= a < picked.len() ==> (#[trigger] picked[a]) < level.len() && level[picked[a] as int]
                    < 0,
            forall|a: int, b: int|
                0 <= a < b < picked.len() ==> #[trigger] picked[a] < #[trigger] picked[b],
            picked.len() > 0,
            layer.len() == picked.len(),
            forall|a: int|
                0 <= a < picked.len() ==> #[trigger] layer[a] == self.order()[picked[a] as int],
            next.len() == level.len(),
            forall|i: int|
                0 <= i < level.len() ==> #[trigger] next[i] == if picked.contains(i as usize) {
                    layers.len() as int
                } else {
                    level[i]
                },
        ensures
            self.listed(
                next,
                places.push(picked.map_values(|i: usize| i as int)),
                layers.push(layer),
            ),
    {
        let height = layers.len() as int;
        let place = picked.map_values(|i: usize| i as int);
        let more_places = places.push(place);
        let more = layers.push(layer);
        assert forall|k: int| 0 < k < more.len() implies (#[trigger] more[k]).len() > 0 by {
            if k < height {
                assert(more[k] == layers[k]);
            }
        }
        assert forall|k: int| 0 <= k < more_places.len() implies self.layer_listed(
            next,
            k,
            #[trigger] more_places[k],
            more[k],
        ) by {
            if k < height {
                assert(self.layer_listed(level, k, places[k], layers[k]));
                assert forall|a: int| 0 <= a < places[k].len() implies next[#[trigger] places[k][a]]
                    == k by {
                    let i = places[k][a];
                    if picked.contains(i as usize) {
                        let b = picked.index_of(i as usize);
                        assert(picked[b] as int == i);
                    }
                }
            } else {
                assert forall|a: int| 0 <= a < place.len() implies next[#[trigger] place[a]]
                    == k by {
                    assert(picked[a] as int == place[a]);
                    assert(picked.contains(place[a] as usize));
                }
                assert(is_placing(place, layer, self.order()));
            }
        }
        assert forall|i: int| 0 <= i < next.len() && #[trigger] next[i] >= 0 implies more_places[next[i]].contains(
            i,
        ) by {
            if picked.contains(i as usize) {
                let b = picked.index_of(i as usize);
                assert(place[b] == i);
            } else {
                assert(places[level[i]].contains(i));
            }
        }
    }

    /// Marks the nodes of `picked` as placed, and lists their names.
    fn place(&self, picked: &Vec<usize>, placed: &mut Vec<bool>) -> (layer: Vec<String>)
        requires
            old(placed)@.len() == self.nodes@.len(),
            forall|b: int|
                0 <= b < picked@.len() ==> (#[trigger] picked@[b]) < self.nodes@.len() && !old(
                    placed,
                )@[picked@[b] as int],
            forall|b: int, c: int|
                0 <= b < c < picked@.len() ==> #[trigger] picked@[b] < #[trigger] picked@[c],
        ensures
            final(placed)@.len() == old(placed)@.len(),
            pending(final(placed)@) + picked@.len() == pending(old(placed)@),
            forall|i: int|
                0 <= i < self.nodes@.len() ==> #[trigger] final(placed)@[i] == (old(placed)@[i]
                    || picked@.contains(i as usize)),
            layer@.len() == picked@.len(),
            forall|b: int|
                0 <= b < picked@.len() ==> #[trigger] texts(layer@)[b]
                    == self.order()[picked@[b] as int],
    {
        let n = self.nodes.len();
        let ghost placed_before = placed@;
        let mut layer: Vec<String> = Vec::new();
        let mut a: usize = 0;
        while a < picked.len()
            invariant
                a <= picked@.len(),
                n == self.nodes@.len(),
                placed@.len() == n,
                placed_before.len() == n,
                pending(placed@) + a == pending(placed_before),
                forall|b: int|
                    0 <= b < picked@.len() ==> (#[trigger] picked@[b]) < n
                        && !placed_before[picked@[b] as int],
                forall|b: int, c: int|
                    0 <= b < c < picked@.len() ==> #[trigger] picked@[b] < #[trigger] picked@[c],
                forall|i: int|
                    0 <= i < n ==> #[trigger] placed@[i] == (placed_before[i] || among(
                        picked@,
                        a as int,
                        i,
                    )),
                layer@.len() == a,
                forall|b: int|
                    0 <= b < a ==> #[trigger] layer@[b]@ == self.order()[picked@[b] as int],
            decreases picked@.len() - a,
        {
            let at = picked[a];
            let ghost placed_now = placed@;
            proof {
                if among(picked@, a as int, at as int) {
                    let b = choose|b: int| 0 <= b < a && #[trigger] picked@[b] as int == at;
                    assert(picked@[b] < picked@[a as int]);
                }
                assert(!placed@[at as int]);
                lemma_pending_place(placed@, at as int);
            }
            placed.set(at, true);
            layer.push(self.nodes[at].name.clone());
            proof {
                assert forall|i: int| 0 <= i < n implies among(picked@, a as int + 1, i) == (among(
                    picked@,
                    a as int,
                    i,
                ) || i == at) by {
                    if among(picked@, a as int + 1, i) {
                        let b = choose|b: int| 0 <= b < a + 1 && #[trigger] picked@[b] as int == i;
                        if b < a {
                            assert(among(picked@, a as int, i));
                        }
                    }
                    if among(picked@, a as int, i) {
                        let b = choose|b: int| 0 <= b < a && #[trigger] picked@[b] as int == i;
                        assert(0 <= b < a + 1 && picked@[b] as int == i);
                    }
                    if i == at {
                        assert(picked@[a as int] as int == i);
                    }
                }
                assert forall|i: int| 0 <= i < n implies #[trigger] placed@[i] == (placed_before[i]
                    || among(picked@, a as int + 1, i)) by {
                    assert(placed_now[i] == (placed_before[i] || among(picked@, a as int, i)));
                }
            }
            a += 1;
        }
        proof {
            assert forall|i: int| 0 <= i < n implies #[trigger] placed@[i] == (placed_before[i]
                || picked@.contains(i as usize)) by {
                if among(picked@, a as int, i) {
                    let b = choose|b: int| 0 <= b < a && #[trigger] picked@[b] as int == i;
                    assert(picked@[b] == i as usize);
                }
                if picked@.contains(i as usize) {
                    let b = picked@.index_of(i as usize);
                    assert(picked@[b] as int == i);
                }
            }
        }
        layer
    }

    /// What one round of placing does to the levels and the layers.
    proof fn lemma_placed_round(
        &self,
        level: Seq<int>,
        places: Seq<Seq<int>>,
        layers: Seq<Seq<Seq<char>>>,
        placed: Seq<bool>,
        picked: Seq<usize>,
        layer: Seq<Seq<char>>,
        next: Seq<int>,
    )
        requires
            self.leveled(level, layers.len() as int),
            self.listed(level, places, layers),
            level.len() <= usize::MAX,
            placed.len() == level.len(),
            forall|i: int| 0 <= i < level.len() ==> placed[i] == (#[trigger] level[i] >= 0),
            forall|a: int|
                0 <= a < picked.len() ==> {
                    &&& (#[trigger] picked[a]) < self.nodes@.len()
                    &&& !placed[picked[a] as int]
                    &&& self.free(placed, picked[a] as int)
                },
            forall|a: int, b: int|
                0 <= a < b < picked.len() ==> #[trigger] picked[a] < #[trigger] picked[b],
            forall|i: int|
                0 <= i < self.nodes@.len() && !placed[i] && !picked.contains(i as usize)
                    ==> #[trigger] self.blocked(placed, i),
            picked.len() > 0,
            layer.len() == picked.len(),
            forall|a: int|
                0 <= a < picked.len() ==> #[trigger] layer[a] == self.order()[picked[a] as int],
            next == Seq::new(
                level.len(),
                |i: int|
                    if picked.contains(i as usize) {
                        layers.len() as int
                    } else {
                        level[i]
                    },
            ),
        ensures
            self.leveled(next, layers.len() as int + 1),
            self.listed(
                next,
                places.push(picked.map_values(|i: usize| i as int)),
                layers.push(layer),
            ),
    {
        assert forall|b: int| 0 <= b < picked.len() implies level[#[trigger] picked[b] as int] < 0
            && forall|j: int| #[trigger] self.edge(picked[b] as int, j) ==> level[j] >= 0 by {
            assert(placed[picked[b] as int] == (level[picked[b] as int] >= 0));
            assert(self.free(placed, picked[b] as int));
            assert forall|j: int| #[trigger] self.edge(picked[b] as int, j) implies level[j]
                >= 0 by {
                assert(placed[j]);
                assert(placed[j] == (level[j] >= 0));
            }
        }
        assert forall|i: int|
            0 <= i < level.len() && level[i] < 0 && !picked.contains(
                i as usize,
            ) implies #[trigger] self.blocked(placed, i) by {
            assert(placed[i] == (level[i] >= 0));
        }
        self.lemma_round(level, layers.len() as int, placed, picked, next);
        self.lemma_listed_round(level, places, layers, picked, layer, next);
    }

    /// The scheduling layers of the graph: each node stands in the first layer
    /// that comes after the layers of all the nodes it depends on, and each layer
    /// lists its nodes in the order in which they were added. A graph without
    /// nodes has one layer, which is empty.
    ///
    /// Fails with `CycleDetected` where the dependencies form a cycle.
    pub fn layers(&self) -> (result: Result<Vec<Vec<String>>, DagError>)
        ensures
            self.order().no_duplicates(),
            match result {
                Ok(layers) => {
                    &&& is_acyclic(self@)
                    &&& is_layering(self@, self.order(), layer_texts(layers@))
                },
                Err(error) => !is_acyclic(self@) && error matches DagError::CycleDetected,
            },
    {
        proof {
            use_type_invariant(self);
        }
        let n = self.nodes.len();
        let links = self.links();
        let mut placed: Vec<bool> = Vec::new();
        while placed.len() < n
            invariant
                placed@.len() <= n,
                forall|i: int| 0 <= i < placed@.len() ==> !placed@[i],
            decreases n - placed@.len(),
        {
            placed.push(false);
        }
        let mut layers: Vec<Vec<String>> = Vec::new();
        let ghost mut level: Seq<int> = Seq::new(n as nat, |i: int| -1int);
        let ghost mut places: Seq<Seq<int>> = Seq::empty();
        proof {
            assert(layer_texts(layers@) =~= Seq::empty());
        }
        let mut picked = self.pick(&links, &placed);
        while picked.len() > 0
            invariant
                self.order().no_duplicates(),
                self.linked(links@),
                n == self.nodes@.len(),
                placed@.len() == n,
                level.len() == n,
                forall|i: int| 0 <= i < n ==> placed@[i] == (#[trigger] level[i] >= 0),
                self.leveled(level, layers@.len() as int),
                self.listed(level, places, layer_texts(layers@)),
                forall|a: int|
                    0 <= a < picked@.len() ==> {
                        &&& (#[trigger] picked@[a]) < self.nodes@.len()
                        &&& !placed@[picked@[a] as int]
                        &&& self.free(placed@, picked@[a] as int)
                    },
                forall|a: int, b: int|
                    0 <= a < b < picked@.len() ==> #[trigger] picked@[a] < #[trigger] picked@[b],
                forall|i: int|
                    0 <= i < self.nodes@.len() && !placed@[i] && !picked@.contains(i as usize)
                        ==> #[trigger] self.blocked(placed@, i),
            decreases pending(placed@),
        {
            let ghost level_before = level;
            let ghost placed_before = placed@;
            let ghost layers_before = layer_texts(layers@);
            let layer = self.place(&picked, &mut placed);
            proof {
                level = Seq::new(
                    n as nat,
                    |i: int|
                        if picked@.contains(i as usize) {
                            layers_before.len() as int
                        } else {
                            level_before[i]
                        },
                );
                self.lemma_placed_round(
                    level_before,
                    places,
                    layers_before,
                    placed_before,
                    picked@,
                    texts(layer@),
                    level,
                );
                places = places.push(picked@.map_values(|i: usize| i as int));
                assert forall|i: int| 0 <= i < n implies placed@[i] == (#[trigger] level[i]
                    >= 0) by {
                    assert(placed_before[i] == (level_before[i] >= 0));
                    assert(placed@[i] == (placed_before[i] || picked@.contains(i as usize)));
                }
            }
            layers.push(layer);
            assert(layer_texts(layers@) =~= layers_before.push(texts(layer@)));
            picked = self.pick(&links, &placed);
        }
        if !all_placed(&placed) {
            proof {
                self.lemma_stuck(placed@);
            }
            return Err(DagError::CycleDetected);
        }
        if layers.len() == 0 {
            let ghost none = layer_texts(layers@);
            layers.push(Vec::new());
            proof {
                places = places.push(Seq::empty());
                assert(texts(layers@[0]@) =~= Seq::empty());
                assert(layer_texts(layers@) =~= none.push(Seq::empty()));
                assert(is_placing(places[0], layer_texts(layers@)[0], self.order()));
            }
        }
        proof {
            assert forall|i: int| 0 <= i < level.len() implies #[trigger] level[i] >= 0 by {
                assert(placed@[i] == (level[i] >= 0));
            }
            self.lemma_layering(level, places, layer_texts(layers@));
            lemma_layered_is_acyclic(self@, self.order(), layer_texts(layers@));
        }
        Ok(layers)
    }

    /// The scheduling layers of a graph without a cycle: see [`DAG::layers`].
    pub fn transitive_reduction(&self) -> (layers: Vec<Vec<String>>)
        requires
            is_acyclic(self@),
        ensures
            is_layering(self@, self.order(), layer_texts(layers@)),
    {
        self.layers().unwrap()
    }
}

} // verus!
