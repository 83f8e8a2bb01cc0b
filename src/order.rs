use vstd::prelude::*;
use crate::graph::{Graph, NodeView, well_formed};

verus! {

/// Node `i` is an operand of node `c`.
pub open spec fn feeds(s: Seq<NodeView>, c: int, i: int) -> bool {
    exists|k: int| 0 <= k < s[c].parents.len() && s[c].parents[k] == i
}

/// Node `i` is `root` or, transitively, an operand of a node that `root`
/// depends on: the ancestor set of `root`, `root` included.
pub open spec fn reaches(s: Seq<NodeView>, root: int, i: int) -> bool
    decreases root - i,
{
    if i < 0 || root < i || s.len() <= root {
        false
    } else if i == root {
        true
    } else {
        exists|c: int| i < c <= root && #[trigger] feeds(s, c, i) && reaches(s, root, c)
    }
}

/// `i` is `root`, or an operand of a node in `lo..=root` that `root` depends on.
spec fn marked_from(s: Seq<NodeView>, root: int, lo: int, j: int) -> bool {
    j == root || exists|c: int| lo <= c <= root && #[trigger] feeds(s, c, j) && reaches(s, root, c)
}

pub open spec fn strictly_increasing(o: Seq<usize>) -> bool {
    forall|a: int, b: int| 0 <= a < b < o.len() ==> o[a] < o[b]
}

pub open spec fn strictly_decreasing(o: Seq<usize>) -> bool {
    forall|a: int, b: int| 0 <= a < b < o.len() ==> o[a] > o[b]
}

/// `x` stands in `o` at a position before `m`.
pub open spec fn appears_before(o: Seq<usize>, m: int, x: usize) -> bool {
    exists|p: int| 0 <= p < m && o[p] == x
}

/// Every operand of a node in `o` stands in `o` before that node.
pub open spec fn parents_first(s: Seq<NodeView>, o: Seq<usize>) -> bool {
    forall|m: int, k: int|
        0 <= m < o.len() && 0 <= k < s[o[m] as int].parents.len() ==> appears_before(
            o,
            m,
            #[trigger] s[o[m] as int].parents[k],
        )
}

/// For every node of `o`, each node that `root` depends on and that takes it
/// as an operand stands in `o` before it: by the time a node's rule runs,
/// every contribution to its gradient has been made.
pub open spec fn consumers_first(s: Seq<NodeView>, root: int, o: Seq<usize>) -> bool {
    forall|m: int, c: int|
        0 <= m < o.len() && reaches(s, root, c) && #[trigger] feeds(s, c, o[m] as int) ==> appears_before(
            o,
            m,
            c as usize,
        )
}

impl Graph {
    /// All nodes that `root` depends on, `root` included, each once, in an
    /// order where every node comes after all of its operands.
    pub fn topological_sort(&self, root: usize) -> (order: Vec<usize>)
        requires
            self.wf(),
            root < self@.len(),
        ensures
            forall|m: int| 0 <= m < order.len() ==> reaches(self@, root as int, #[trigger] order[m] as int),
            forall|x: int| #[trigger] reaches(self@, root as int, x) ==> exists|m: int|
                0 <= m < order.len() && order[m] == x,
            strictly_increasing(order@),
            order@.no_duplicates(),
            parents_first(self@, order@),
            order.len() > 0 && order[order.len() - 1] == root,
    {
        let ghost s = self@;
        let n = self.len();
        let mut marked: Vec<bool> = Vec::new();
        let mut t: usize = 0;
        while t < root
            invariant
                t <= root,
                marked@.len() == t,
                forall|j: int| 0 <= j < t ==> !marked@[j],
            decreases root - t,
        {
            marked.push(false);
            t += 1;
        }
        marked.push(true);
        assert forall|j: int| 0 <= j <= root implies marked@[j] == marked_from(s, root as int, root + 1, j) by {}

        let mut i: usize = root + 1;
        while i > 0
            invariant
                self.wf(),
                s == self@,
                root < s.len(),
                i <= root + 1,
                marked@.len() == root + 1,
                forall|j: int| i <= j <= root ==> marked@[j] == reaches(s, root as int, j),
                forall|j: int| 0 <= j < i ==> marked@[j] == marked_from(s, root as int, i as int, j),
            decreases i,
        {
            i -= 1;
            proof {
                reveal_with_fuel(reaches, 1);
                assert(marked@[i as int] == reaches(s, root as int, i as int));
            }
            if marked[i] {
                let node = self.node(i);
                let mut k: usize = 0;
                while k < node.parents.len()
                    invariant
                        self.wf(),
                        s == self@,
                        root < s.len(),
                        i <= root,
                        node@ == s[i as int],
                        reaches(s, root as int, i as int),
                        k <= node.parents.len(),
                        marked@.len() == root + 1,
                        forall|j: int| i <= j <= root ==> marked@[j] == reaches(s, root as int, j),
                        forall|j: int|
                            0 <= j < i ==> marked@[j] == (marked_from(s, root as int, i + 1, j) || exists|q: int|
                                0 <= q < k && node.parents@[q] == j),
                    decreases node.parents.len() - k,
                {
                    let p = node.parents[k];
                    assert(s[i as int].parents[k as int] < i);
                    marked.set(p, true);
                    k += 1;
                }
                assert forall|j: int| 0 <= j < i implies marked@[j] == marked_from(s, root as int, i as int, j) by {
                    if marked@[j] && !marked_from(s, root as int, i + 1, j) {
                        let q = choose|q: int| 0 <= q < node.parents.len() && node.parents@[q] == j;
                        assert(s[i as int].parents[q] == j);
                        assert(feeds(s, i as int, j));
                    }
                    if marked_from(s, root as int, i as int, j) && !marked_from(s, root as int, i + 1, j) {
                        let c = choose|c: int| i <= c <= root && #[trigger] feeds(s, c, j) && reaches(s, root as int, c);
                        assert(c == i);
                    }
                }
            } else {
                assert forall|j: int| 0 <= j < i implies marked@[j] == marked_from(s, root as int, i as int, j) by {
                    if marked_from(s, root as int, i as int, j) && !marked_from(s, root as int, i + 1, j) {
                        let c = choose|c: int| i <= c <= root && #[trigger] feeds(s, c, j) && reaches(s, root as int, c);
                        assert(c == i);
                    }
                }
            }
        }

        let mut order: Vec<usize> = Vec::new();
        let mut j: usize = 0;
        while j <= root
            invariant
                root < s.len(),
                n == s.len(),
                j <= root + 1,
                marked@.len() == root + 1,
                forall|x: int| 0 <= x <= root ==> marked@[x] == reaches(s, root as int, x),
                strictly_increasing(order@),
                forall|m: int| 0 <= m < order.len() ==> order[m] < j,
                forall|m: int| 0 <= m < order.len() ==> reaches(s, root as int, #[trigger] order[m] as int),
                forall|x: int| 0 <= x < j && #[trigger] reaches(s, root as int, x) ==> exists|m: int|
                    0 <= m < order.len() && order[m] == x,
            decreases root + 1 - j,
        {
            let ghost prev = order@;
            if marked[j] {
                order.push(j);
                proof {
                    assert(order@[order.len() - 1] == j);
                }
            }
            proof {
                assert forall|x: int| 0 <= x <= j && #[trigger] reaches(s, root as int, x) implies exists|m: int|
                    0 <= m < order.len() && order[m] == x by {
                    if x < j {
                        let m = choose|m: int| 0 <= m < prev.len() && prev[m] == x;
                        assert(order@[m] == prev[m]);
                    } else {
                        assert(order@[order.len() - 1] == j);
                    }
                }
            }
            j += 1;
        }
        proof {
            assert forall|x: int| #[trigger] reaches(s, root as int, x) implies exists|m: int|
                0 <= m < order.len() && order[m] == x by {
                assert(x <= root);
            }
            lemma_increasing_no_duplicates(order@);
            lemma_complete_increasing_parents_first(s, root as int, order@);
            lemma_last_is_root(s, root as int, order@);
        }
        order
    }

    /// The nodes whose rule the backward pass from `root` replays, in the
    /// order it replays them: every node that `root` depends on and that an
    /// operator produced, each once, in reverse topological order. Leaves
    /// are left out: they only receive contributions.
    pub fn backward_order(&self, root: usize) -> (order: Vec<usize>)
        requires
            self.wf(),
            root < self@.len(),
        ensures
            forall|m: int|
                0 <= m < order.len() ==> reaches(self@, root as int, #[trigger] order[m] as int)
                    && self@[order[m] as int].op is Some,
            forall|x: int| #[trigger] reaches(self@, root as int, x) && self@[x].op is Some ==> exists|m: int|
                0 <= m < order.len() && order[m] == x,
            strictly_decreasing(order@),
            order@.no_duplicates(),
            consumers_first(self@, root as int, order@),
            self@[root as int].op is Some ==> order.len() > 0 && order[0] == root,
    {
        let ghost s = self@;
        let topo = self.topological_sort(root);
        let mut order: Vec<usize> = Vec::new();
        let mut t: usize = topo.len();
        while t > 0
            invariant
                s == self@,
                t <= topo.len(),
                forall|m: int| 0 <= m < topo.len() ==> reaches(s, root as int, #[trigger] topo[m] as int),
                strictly_increasing(topo@),
                forall|m: int|
                    0 <= m < order.len() ==> reaches(s, root as int, #[trigger] order[m] as int)
                        && s[order[m] as int].op is Some,
                forall|m: int, q: int| 0 <= m < order.len() && 0 <= q < t ==> order[m] > topo[q],
                forall|q: int| t <= q < topo.len() && s[topo[q] as int].op is Some ==> exists|m: int|
                    0 <= m < order.len() && order[m] == #[trigger] topo[q],
                strictly_decreasing(order@),
            decreases t,
        {
            t -= 1;
            let x = topo[t];
            let ghost prev = order@;
            reveal_with_fuel(reaches, 1);
            if self.node(x).op.is_some() {
                order.push(x);
                proof {
                    assert(order@[order.len() - 1] == x);
                }
            }
            proof {
                assert forall|q: int| t <= q < topo.len() && s[topo[q] as int].op is Some implies exists|m: int|
                    0 <= m < order.len() && order[m] == #[trigger] topo[q] by {
                    if q > t {
                        let m = choose|m: int| 0 <= m < prev.len() && prev[m] == topo[q];
                        assert(order@[m] == prev[m]);
                    } else {
                        assert(order@[order.len() - 1] == x);
                    }
                }
                assert forall|m: int, q: int| 0 <= m < order.len() && 0 <= q < t implies order[m] > topo[q] by {
                    if m < prev.len() {
                        assert(order@[m] == prev[m]);
                    } else {
                        assert(topo[q] < topo[t as int]);
                    }
                }
            }
        }
        proof {
            assert forall|x: int| #[trigger] reaches(s, root as int, x) && s[x].op is Some implies exists|m: int|
                0 <= m < order.len() && order[m] == x by {
                let q = choose|q: int| 0 <= q < topo.len() && topo[q] == x;
                assert(s[topo[q] as int].op is Some);
            }
            lemma_decreasing_no_duplicates(order@);
            lemma_complete_decreasing_consumers_first(s, root as int, order@);
            if s[root as int].op is Some {
                reveal_with_fuel(reaches, 1);
                assert(reaches(s, root as int, root as int));
                let m = choose|m: int| 0 <= m < order.len() && order[m] == root;
                if m > 0 {
                    assert(order[0] > order[m]);
                    assert(reaches(s, root as int, order[0] as int));
                }
            }
        }
        order
    }
}

proof fn lemma_decreasing_no_duplicates(o: Seq<usize>)
    requires
        strictly_decreasing(o),
    ensures
        o.no_duplicates(),
{
    assert forall|a: int, b: int| 0 <= a < o.len() && 0 <= b < o.len() && a != b implies o[a] != o[b] by {
        if a < b {
            assert(o[a] > o[b]);
        } else {
            assert(o[b] > o[a]);
        }
    }
}

proof fn lemma_complete_decreasing_consumers_first(s: Seq<NodeView>, root: int, o: Seq<usize>)
    requires
        well_formed(s),
        forall|x: int| #[trigger] reaches(s, root, x) && s[x].op is Some ==> exists|m: int|
            0 <= m < o.len() && o[m] == x,
        strictly_decreasing(o),
    ensures
        consumers_first(s, root, o),
{
    assert forall|m: int, c: int|
        0 <= m < o.len() && reaches(s, root, c) && #[trigger] feeds(s, c, o[m] as int) implies appears_before(
            o,
            m,
            c as usize,
        ) by {
        reveal_with_fuel(reaches, 1);
        let k = choose|k: int| 0 <= k < s[c].parents.len() && s[c].parents[k] == o[m] as int;
        assert(s[c].parents[k] < c);
        assert(s[c].op is Some);
        let p = choose|p: int| 0 <= p < o.len() && o[p] == c;
        if p > m {
            assert(o[m] > o[p]);
        }
        assert(p < m);
    }
}

proof fn lemma_last_is_root(s: Seq<NodeView>, root: int, o: Seq<usize>)
    requires
        0 <= root < s.len(),
        forall|m: int| 0 <= m < o.len() ==> reaches(s, root, #[trigger] o[m] as int),
        forall|x: int| #[trigger] reaches(s, root, x) ==> exists|m: int| 0 <= m < o.len() && o[m] == x,
        strictly_increasing(o),
    ensures
        o.len() > 0 && o[o.len() - 1] == root,
{
    reveal_with_fuel(reaches, 1);
    assert(reaches(s, root, root));
    let m = choose|m: int| 0 <= m < o.len() && o[m] == root;
    if m < o.len() - 1 {
        assert(o[m] < o[o.len() - 1]);
        assert(reaches(s, root, o[o.len() - 1] as int));
    }
}

proof fn lemma_increasing_no_duplicates(o: Seq<usize>)
    requires
        strictly_increasing(o),
    ensures
        o.no_duplicates(),
{
    assert forall|a: int, b: int| 0 <= a < o.len() && 0 <= b < o.len() && a != b implies o[a] != o[b] by {
        if a < b {
            assert(o[a] < o[b]);
        } else {
            assert(o[b] < o[a]);
        }
    }
}

/// An operand of a node that `root` depends on is itself one.
proof fn lemma_operand_reached(s: Seq<NodeView>, root: int, c: int, k: int)
    requires
        well_formed(s),
        reaches(s, root, c),
        0 <= k < s[c].parents.len(),
    ensures
        reaches(s, root, s[c].parents[k] as int),
{
    let p = s[c].parents[k] as int;
    assert(s[c].parents[k] < c);
    assert(feeds(s, c, p));
    reveal_with_fuel(reaches, 1);
    assert(reaches(s, root, p));
}

proof fn lemma_complete_increasing_parents_first(s: Seq<NodeView>, root: int, o: Seq<usize>)
    requires
        well_formed(s),
        forall|m: int| 0 <= m < o.len() ==> reaches(s, root, #[trigger] o[m] as int),
        forall|x: int| #[trigger] reaches(s, root, x) ==> exists|m: int| 0 <= m < o.len() && o[m] == x,
        strictly_increasing(o),
    ensures
        parents_first(s, o),
{
    assert forall|m: int, k: int|
        0 <= m < o.len() && 0 <= k < s[o[m] as int].parents.len() implies appears_before(
            o,
            m,
            #[trigger] s[o[m] as int].parents[k],
        ) by {
        let c = o[m] as int;
        let x = s[c].parents[k] as int;
        lemma_operand_reached(s, root, c, k);
        let p = choose|p: int| 0 <= p < o.len() && o[p] == x;
        assert(s[c].parents[k] < c);
        if p >= m {
            if p > m {
                assert(o[m] < o[p]);
            }
        }
        assert(p < m);
        assert(o[p] == s[c].parents[k]);
    }
}

} // verus!
