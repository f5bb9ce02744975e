//! What the scheduling layers of a dependency graph are, and what follows
//! from it: that a graph has layers only where it has no cycle, and that it
//! has no two ways to be layered.

use vstd::prelude::*;

verus! {

/// `node` and `dep` are nodes of the graph, and `dep` is among the declared
/// dependencies of `node`. A declared dependency that is no node plays no part
/// in the order of execution.
pub open spec fn depends_on(
    graph: Map<Seq<char>, Seq<Seq<char>>>,
    node: Seq<char>,
    dep: Seq<char>,
) -> bool {
    graph.dom().contains(node) && graph.dom().contains(dep) && graph[node].contains(dep)
}

/// `rank` gives every node a number above those of the nodes it depends on.
pub open spec fn is_ranking(
    graph: Map<Seq<char>, Seq<Seq<char>>>,
    rank: spec_fn(Seq<char>) -> nat,
) -> bool {
    forall|node: Seq<char>, dep: Seq<char>| #[trigger]
        depends_on(graph, node, dep) ==> rank(dep) < rank(node)
}

/// Each node of the chain depends on the next.
pub open spec fn is_chain(graph: Map<Seq<char>, Seq<Seq<char>>>, chain: Seq<Seq<char>>) -> bool {
    forall|i: int|
        0 <= i < chain.len() - 1 ==> depends_on(graph, #[trigger] chain[i], chain[i + 1])
}

/// The chain leads from a node, over one dependency or more, back to the
/// same node.
pub open spec fn is_cycle(graph: Map<Seq<char>, Seq<Seq<char>>>, chain: Seq<Seq<char>>) -> bool {
    chain.len() >= 2 && is_chain(graph, chain) && chain.first() == chain.last()
}

/// The graph has no cycle.
pub open spec fn is_acyclic(graph: Map<Seq<char>, Seq<Seq<char>>>) -> bool {
    !exists|chain: Seq<Seq<char>>| is_cycle(graph, chain)
}

/// Along a chain the ranks fall.
proof fn lemma_chain_falls(
    graph: Map<Seq<char>, Seq<Seq<char>>>,
    rank: spec_fn(Seq<char>) -> nat,
    chain: Seq<Seq<char>>,
    upto: int,
)
    requires
        is_ranking(graph, rank),
        is_chain(graph, chain),
        0 <= upto < chain.len(),
    ensures
        rank(chain[upto]) + upto <= rank(chain[0]),
    decreases upto,
{
    if upto > 0 {
        lemma_chain_falls(graph, rank, chain, upto - 1);
        assert(depends_on(graph, chain[upto - 1], chain[upto]));
    }
}

/// A graph whose nodes can be ranked above the nodes they depend on has no
/// cycle.
pub proof fn lemma_ranked_is_acyclic(
    graph: Map<Seq<char>, Seq<Seq<char>>>,
    rank: spec_fn(Seq<char>) -> nat,
)
    requires
        is_ranking(graph, rank),
    ensures
        is_acyclic(graph),
{
    assert forall|chain: Seq<Seq<char>>| !is_cycle(graph, chain) by {
        if is_cycle(graph, chain) {
            lemma_chain_falls(graph, rank, chain, chain.len() - 1);
        }
    }
}

/// A node that depends on itself makes a cycle.
pub proof fn lemma_self_dependency(graph: Map<Seq<char>, Seq<Seq<char>>>, node: Seq<char>)
    requires
        depends_on(graph, node, node),
    ensures
        !is_acyclic(graph),
{
    assert(is_cycle(graph, seq![node, node]));
}

/// Among more than `bound` numbers below `bound`, two are the same.
pub(crate) proof fn lemma_repeat(numbers: Seq<int>, bound: nat) -> (found: (int, int))
    requires
        numbers.len() > bound,
        forall|i: int| 0 <= i < numbers.len() ==> 0 <= #[trigger] numbers[i] < bound,
    ensures
        0 <= found.0 < found.1 < numbers.len(),
        numbers[found.0] == numbers[found.1],
    decreases bound,
{
    if bound == 0 {
        let first = numbers[0];
        assert(first < bound);
        (0, 0)
    } else {
        let top = bound - 1;
        if !numbers.contains(top) {
            assert forall|i: int| 0 <= i < numbers.len() implies 0 <= #[trigger] numbers[i]
                < top by {
                if numbers[i] == top {
                    assert(numbers.contains(top));
                }
            }
            lemma_repeat(numbers, top as nat)
        } else {
            let at = numbers.index_of(top);
            let rest = numbers.remove(at);
            numbers.remove_ensures(at);
            if rest.contains(top) {
                let again = rest.index_of(top);
                if again < at {
                    assert(numbers[again] == top);
                    (again, at)
                } else {
                    assert(numbers[again + 1] == top);
                    (at, again + 1)
                }
            } else {
                assert forall|i: int| 0 <= i < rest.len() implies 0 <= #[trigger] rest[i]
                    < top by {
                    if i < at {
                        assert(rest[i] == numbers[i]);
                    } else {
                        assert(rest[i] == numbers[i + 1]);
                    }
                    if rest[i] == top {
                        assert(rest.contains(top));
                    }
                }
                let (a, b) = lemma_repeat(rest, top as nat);
                let first = if a < at {
                    a
                } else {
                    a + 1
                };
                let second = if b < at {
                    b
                } else {
                    b + 1
                };
                assert(numbers[first] == rest[a]);
                assert(numbers[second] == rest[b]);
                (first, second)
            }
        }
    }
}

/// `node` stands in layer `k`.
pub open spec fn in_layer(layers: Seq<Seq<Seq<char>>>, k: int, node: Seq<char>) -> bool {
    0 <= k < layers.len() && layers[k].contains(node)
}

/// `places` names, in rising order, places of `whole` at which the items of
/// `part` stand.
pub open spec fn is_placing(places: Seq<int>, part: Seq<Seq<char>>, whole: Seq<Seq<char>>) -> bool {
    &&& places.len() == part.len()
    &&& forall|a: int|
        0 <= a < places.len() ==> 0 <= #[trigger] places[a] < whole.len() && whole[places[a]]
            == part[a]
    &&& forall|a: int, b: int|
        0 <= a < b < places.len() ==> #[trigger] places[a] < #[trigger] places[b]
}

/// `node` depends on a node that stands in the layer just before layer `k`.
pub open spec fn leans_on_layer_before(
    graph: Map<Seq<char>, Seq<Seq<char>>>,
    layers: Seq<Seq<Seq<char>>>,
    k: int,
    node: Seq<char>,
) -> bool {
    exists|dep: Seq<char>| depends_on(graph, node, dep) && in_layer(layers, k - 1, dep)
}

/// The items of `part` are items of `whole`, in the order in which they stand
/// there.
pub open spec fn is_subsequence(part: Seq<Seq<char>>, whole: Seq<Seq<char>>) -> bool {
    exists|places: Seq<int>| is_placing(places, part, whole)
}

/// `layers` are the scheduling layers of the graph whose nodes were added in
/// `order`:
/// - there is at least one layer, and only the first may be empty;
/// - every node stands in exactly one layer;
/// - a layer lists its nodes in the order in which they were added;
/// - every node that a node depends on stands in an earlier layer;
/// - a node outside the first layer depends on a node of the layer just
///   before its own, so no node could stand earlier than it does.
pub open spec fn is_layering(
    graph: Map<Seq<char>, Seq<Seq<char>>>,
    order: Seq<Seq<char>>,
    layers: Seq<Seq<Seq<char>>>,
) -> bool {
    &&& layers.len() >= 1
    &&& forall|k: int| 0 < k < layers.len() ==> (#[trigger] layers[k]).len() > 0
    &&& forall|node: Seq<char>| #[trigger]
        graph.dom().contains(node) ==> exists|k: int| in_layer(layers, k, node)
    &&& forall|node: Seq<char>, k: int, other: int|
        #[trigger] in_layer(layers, k, node) && #[trigger] in_layer(layers, other, node) ==> k
            == other
    &&& forall|k: int| 0 <= k < layers.len() ==> is_subsequence(#[trigger] layers[k], order)
    &&& forall|k: int, node: Seq<char>, dep: Seq<char>|
        #[trigger] in_layer(layers, k, node) && #[trigger] depends_on(graph, node, dep)
            ==> exists|below: int| below < k && in_layer(layers, below, dep)
    &&& forall|k: int, node: Seq<char>|
        0 < k && in_layer(layers, k, node) ==> #[trigger] leans_on_layer_before(
            graph,
            layers,
            k,
            node,
        )
}

/// The layer in which `node` stands, or 0 where it stands in none.
pub open spec fn layer_of(layers: Seq<Seq<Seq<char>>>, node: Seq<char>) -> nat {
    if exists|k: int| in_layer(layers, k, node) {
        (choose|k: int| in_layer(layers, k, node)) as nat
    } else {
        0
    }
}

/// A node that depends on no node stands in the first layer.
pub proof fn lemma_free_node_first(
    graph: Map<Seq<char>, Seq<Seq<char>>>,
    order: Seq<Seq<char>>,
    layers: Seq<Seq<Seq<char>>>,
    node: Seq<char>,
)
    requires
        is_layering(graph, order, layers),
        graph.dom().contains(node),
        forall|dep: Seq<char>| !depends_on(graph, node, dep),
    ensures
        in_layer(layers, 0, node),
{
    let k = choose|k: int| in_layer(layers, k, node);
    assert(in_layer(layers, k, node));
    if k > 0 {
        assert(leans_on_layer_before(graph, layers, k, node));
    }
}

/// Each number of the sequence is above those before it.
spec fn is_rising(numbers: Seq<int>) -> bool {
    forall|a: int, b: int|
        0 <= a < b < numbers.len() ==> #[trigger] numbers[a] < #[trigger] numbers[b]
}

/// Rising sequences that hold the same numbers are the same.
proof fn lemma_rising_same(first: Seq<int>, second: Seq<int>)
    requires
        is_rising(first),
        is_rising(second),
        forall|x: int| first.contains(x) <==> second.contains(x),
    ensures
        first == second,
    decreases first.len(),
{
    if first.len() == 0 {
        if second.len() > 0 {
            assert(second.contains(second[0]));
        }
        assert(first =~= second);
    } else {
        let top = first.last();
        assert(first.contains(top));
        assert(second.contains(top));
        let other = second.last();
        assert(second.contains(other));
        assert(first.contains(other));
        let at = second.index_of(top);
        let back = first.index_of(other);
        assert(top == other);
        let less = first.drop_last();
        let fewer = second.drop_last();
        assert forall|x: int| less.contains(x) <==> fewer.contains(x) by {
            if less.contains(x) {
                let i = less.index_of(x);
                assert(first[i] == x);
                assert(first.contains(x));
                let j = second.index_of(x);
                assert(fewer[j] == x);
            }
            if fewer.contains(x) {
                let i = fewer.index_of(x);
                assert(second[i] == x);
                assert(second.contains(x));
                let j = first.index_of(x);
                assert(less[j] == x);
            }
        }
        lemma_rising_same(less, fewer);
        assert(first =~= less.push(top));
        assert(second =~= fewer.push(other));
    }
}

/// Two layerings of a graph put every node into the same layer, up to the
/// layer `bound`.
proof fn lemma_same_layer(
    graph: Map<Seq<char>, Seq<Seq<char>>>,
    order: Seq<Seq<char>>,
    first: Seq<Seq<Seq<char>>>,
    second: Seq<Seq<Seq<char>>>,
    bound: nat,
)
    requires
        forall|node: Seq<char>| order.contains(node) ==> graph.dom().contains(node),
        is_layering(graph, order, first),
        is_layering(graph, order, second),
    ensures
        forall|k: int, node: Seq<char>|
            #![trigger in_layer(first, k, node)]
            #![trigger in_layer(second, k, node)]
            k <= bound ==> (in_layer(first, k, node) <==> in_layer(second, k, node)),
    decreases bound,
{
    if bound > 0 {
        lemma_same_layer(graph, order, first, second, (bound - 1) as nat);
    }
    assert forall|k: int, node: Seq<char>|
        #![trigger in_layer(first, k, node)]
        #![trigger in_layer(second, k, node)]
        k <= bound implies (in_layer(first, k, node) <==> in_layer(second, k, node)) by {
        if k == bound {
            if in_layer(first, k, node) {
                lemma_layer_found(graph, order, first, second, bound, node);
            }
            if in_layer(second, k, node) {
                lemma_layer_found(graph, order, second, first, bound, node);
            }
        }
    }
}

/// A node of layer `k` in one layering stands in layer `k` in another, where
/// the two agree on all layers before.
proof fn lemma_layer_found(
    graph: Map<Seq<char>, Seq<Seq<char>>>,
    order: Seq<Seq<char>>,
    first: Seq<Seq<Seq<char>>>,
    second: Seq<Seq<Seq<char>>>,
    k: nat,
    node: Seq<char>,
)
    requires
        forall|node: Seq<char>| order.contains(node) ==> graph.dom().contains(node),
        is_layering(graph, order, first),
        is_layering(graph, order, second),
        in_layer(first, k as int, node),
        forall|below: int, other: Seq<char>|
            #![trigger in_layer(first, below, other)]
            #![trigger in_layer(second, below, other)]
            below < k ==> (in_layer(first, below, other) <==> in_layer(second, below, other)),
    ensures
        in_layer(second, k as int, node),
{
    assert(is_subsequence(first[k as int], order));
    let places = choose|places: Seq<int>| is_placing(places, first[k as int], order);
    let a = first[k as int].index_of(node);
    assert(order[places[a]] == node);
    assert(order.contains(node));
    assert(graph.dom().contains(node));
    let found = choose|found: int| in_layer(second, found, node);
    assert(in_layer(second, found, node));
    if found < k {
        assert(in_layer(first, found, node));
    }
    if found > k {
        assert(leans_on_layer_before(graph, second, found, node));
        let dep = choose|dep: Seq<char>|
            depends_on(graph, node, dep) && in_layer(second, found - 1, dep);
        let below = choose|below: int| below < k && in_layer(first, below, dep);
        assert(in_layer(first, below, dep));
        assert(in_layer(second, below, dep));
    }
}

/// A graph has one layering only: two lists of layers that both are the
/// scheduling layers of a graph are the same.
pub proof fn lemma_layering_unique(
    graph: Map<Seq<char>, Seq<Seq<char>>>,
    order: Seq<Seq<char>>,
    first: Seq<Seq<Seq<char>>>,
    second: Seq<Seq<Seq<char>>>,
)
    requires
        order.no_duplicates(),
        forall|node: Seq<char>| order.contains(node) ==> graph.dom().contains(node),
        is_layering(graph, order, first),
        is_layering(graph, order, second),
    ensures
        first == second,
{
    assert forall|k: int, node: Seq<char>|
        #![trigger in_layer(first, k, node)]
        #![trigger in_layer(second, k, node)]
        in_layer(first, k, node) <==> in_layer(second, k, node) by {
        if k >= 0 {
            lemma_same_layer(graph, order, first, second, k as nat);
        }
    }
    if first.len() < second.len() {
        let k = second.len() - 1;
        assert(second[k].len() > 0);
        assert(second[k].contains(second[k][0]));
        assert(in_layer(second, k, second[k][0]));
        assert(in_layer(first, k, second[k][0]));
    }
    if second.len() < first.len() {
        let k = first.len() - 1;
        assert(first[k].len() > 0);
        assert(first[k].contains(first[k][0]));
        assert(in_layer(first, k, first[k][0]));
        assert(in_layer(second, k, first[k][0]));
    }
    assert forall|k: int| 0 <= k < first.len() implies first[k] == second[k] by {
        assert(is_subsequence(first[k], order));
        assert(is_subsequence(second[k], order));
        let here = choose|places: Seq<int>| is_placing(places, first[k], order);
        let there = choose|places: Seq<int>| is_placing(places, second[k], order);
        assert forall|x: int| here.contains(x) <==> there.contains(x) by {
            if here.contains(x) {
                let a = here.index_of(x);
                assert(first[k][a] == order[x]);
                assert(first[k].contains(order[x]));
                assert(in_layer(first, k, order[x]));
                assert(in_layer(second, k, order[x]));
                let b = second[k].index_of(order[x]);
                assert(order[there[b]] == order[x]);
                assert(there[b] == x);
            }
            if there.contains(x) {
                let a = there.index_of(x);
                assert(second[k][a] == order[x]);
                assert(second[k].contains(order[x]));
                assert(in_layer(second, k, order[x]));
                assert(in_layer(first, k, order[x]));
                let b = first[k].index_of(order[x]);
                assert(order[here[b]] == order[x]);
                assert(here[b] == x);
            }
        }
        lemma_rising_same(here, there);
        assert(first[k].len() == second[k].len());
        assert forall|a: int| 0 <= a < first[k].len() implies first[k][a] == second[k][a] by {
            assert(order[here[a]] == first[k][a]);
            assert(order[there[a]] == second[k][a]);
        }
        assert(first[k] =~= second[k]);
    }
    assert(first =~= second);
}

/// A graph that has scheduling layers has no cycle: the layer of a node ranks
/// it above the nodes it depends on.
pub proof fn lemma_layered_is_acyclic(
    graph: Map<Seq<char>, Seq<Seq<char>>>,
    order: Seq<Seq<char>>,
    layers: Seq<Seq<Seq<char>>>,
)
    requires
        is_layering(graph, order, layers),
    ensures
        is_ranking(graph, |node: Seq<char>| layer_of(layers, node)),
        is_acyclic(graph),
{
    let rank = |node: Seq<char>| layer_of(layers, node);
    assert forall|node: Seq<char>, dep: Seq<char>| #[trigger]
        depends_on(graph, node, dep) implies rank(dep) < rank(node) by {
        assert(graph.dom().contains(node));
        let k = choose|k: int| in_layer(layers, k, node);
        assert(in_layer(layers, k, node));
        let below = choose|below: int| below < k && in_layer(layers, below, dep);
        let found = choose|found: int| in_layer(layers, found, dep);
        assert(in_layer(layers, found, dep));
        assert(found == below);
    }
    assert(is_ranking(graph, rank));
    lemma_ranked_is_acyclic(graph, rank);
}

} // verus!
