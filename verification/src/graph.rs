use vstd::prelude::*;

verus! {

/// An undirected graph over `usize` node identifiers.
///
/// The adjacency map is stored as a strictly ascending vector of node
/// identifiers together with, for each identifier, the vector of its
/// neighbours.  An edge `(a, b)` is present when `b` occurs in `a`'s
/// neighbour list and `a` in `b`'s; every mutator maintains that mirroring.
/// `degree` is a running high-water mark over neighbour-list lengths, never
/// recomputed downwards on removal.
#[derive(Debug)]
pub struct Graph {
    degree: usize,
    keys: Vec<usize>,
    lists: Vec<Vec<usize>>,
}

impl Graph {
    /// Representation invariant: one neighbour list per node identifier,
    /// identifiers strictly ascending (hence unique).
    pub closed spec fn wf(self) -> bool {
        &&& self.keys@.len() == self.lists@.len()
        &&& forall|i: int, j: int|
            0 <= i < j < self.keys@.len() ==> self.keys@[i] < self.keys@[j]
    }

    /// The node identifiers, in ascending order.
    pub closed spec fn node_seq(self) -> Seq<usize> {
        self.keys@
    }

    /// The set of node identifiers.
    pub open spec fn nodes_set(self) -> Set<usize> {
        self.node_seq().to_set()
    }

    pub open spec fn has_node(self, n: usize) -> bool {
        self.node_seq().contains(n)
    }

    /// The neighbour list of `n`, or the empty sequence when `n` is absent.
    pub closed spec fn adj(self, n: usize) -> Seq<usize> {
        match self.keys@.index_of_first(n) {
            Some(i) => self.lists@[i]@,
            None => Seq::empty(),
        }
    }

    /// The high-water mark over neighbour-list lengths reached so far.
    pub closed spec fn deg(self) -> usize {
        self.degree
    }

    /// An edge is present when each endpoint lists the other.
    pub open spec fn has_edge(self, a: usize, b: usize) -> bool {
        &&& self.has_node(a)
        &&& self.has_node(b)
        &&& self.adj(a).contains(b)
        &&& self.adj(b).contains(a)
    }

    /// Every pair of distinct nodes is mutually adjacent.
    pub open spec fn complete(self) -> bool {
        forall|a: usize, b: usize|
            self.has_node(a) && self.has_node(b) && a != b ==> #[trigger] self.adj(a).contains(b)
    }

    /// Adjacency is symmetric and no neighbour entry dangles: whatever some
    /// neighbour list mentions is itself a node, and lists it back.
    pub open spec fn mirrored(self) -> bool {
        forall|a: usize, b: usize|
            self.has_node(a) && #[trigger] self.adj(a).contains(b)
                ==> self.has_node(b) && self.adj(b).contains(a)
    }

    /// No node lists itself as a neighbour.
    pub open spec fn loop_free(self) -> bool {
        forall|n: usize| !(#[trigger] self.adj(n)).contains(n)
    }

    /// No neighbour list holds a duplicate entry (no edge was inserted twice).
    pub open spec fn dedup(self) -> bool {
        forall|n: usize| (#[trigger] self.adj(n)).no_duplicates()
    }

    /// The high-water mark bounds every current neighbour-list length.
    pub open spec fn deg_covers(self) -> bool {
        forall|n: usize| (#[trigger] self.adj(n)).len() <= self.deg()
    }

    /// `s` with its first occurrence of `x` removed, or `s` unchanged when
    /// `x` does not occur.
    pub open spec fn remove_first_val(s: Seq<usize>, x: usize) -> Seq<usize> {
        match s.index_of_first(x) {
            Some(i) => s.remove(i),
            None => s,
        }
    }

    /// Sum of the lengths of the first `k` neighbour lists.
    spec fn sum_lens_to(lists: Seq<Seq<usize>>, k: int) -> int
        decreases k,
    {
        if k <= 0 {
            0
        } else {
            Self::sum_lens_to(lists, k - 1) + lists[k - 1].len()
        }
    }

    /// Total number of neighbour entries over the whole graph; every
    /// undirected edge contributes one entry at each endpoint.
    pub closed spec fn edge_sum(self) -> int {
        Self::sum_lens_to(self.lists@.map_values(|l: Vec<usize>| l@), self.lists@.len() as int)
    }


    /// One node's neighbour list folded into the running edge scan: an entry
    /// `an` is reported as `(n, an)` unless `(an, n)` was reported already.
    spec fn scan_list(acc: Seq<(usize, usize)>, n: usize, l: Seq<usize>) -> Seq<(usize, usize)>
        decreases l.len(),
    {
        if l.len() == 0 {
            acc
        } else {
            let acc2 = if acc.contains((l[0], n)) {
                acc
            } else {
                acc.push((n, l[0]))
            };
            Self::scan_list(acc2, n, l.drop_first())
        }
    }

    /// The edge scan over the first `k` nodes in ascending order.
    spec fn scan_upto(self, k: int) -> Seq<(usize, usize)>
        decreases k,
    {
        if k <= 0 {
            Seq::empty()
        } else {
            Self::scan_list(self.scan_upto(k - 1), self.keys@[k - 1], self.lists@[k - 1]@)
        }
    }

    /// The edges of the graph as the ascending scan reports them: each pair
    /// `(n, an)` with `an` a neighbour of `n`, skipping pairs already seen
    /// from the other side.
    pub closed spec fn edge_seq(self) -> Seq<(usize, usize)> {
        self.scan_upto(self.keys@.len() as int)
    }

    /// A graph whose neighbour lists are all empty has edge sum zero.
    pub proof fn lemma_edgeless_sum(self)
        requires
            self.wf(),
            forall|m: usize| #[trigger] self.adj(m) == Seq::<usize>::empty(),
        ensures
            self.edge_sum() == 0,
    {
        let lseqs = self.lists@.map_values(|l: Vec<usize>| l@);
        assert forall|k: int| 0 <= k < lseqs.len() implies lseqs[k].len() == 0 by {
            self.lemma_rep_index(k);
            assert(self.adj(self.keys@[k]) == Seq::<usize>::empty());
        }
        Self::lemma_sum_lens_to_zero(lseqs, lseqs.len() as int);
    }

    /// Partial sums over empty lists are zero.
    proof fn lemma_sum_lens_to_zero(lists: Seq<Seq<usize>>, k: int)
        requires
            k <= lists.len(),
            forall|j: int| 0 <= j < lists.len() ==> (#[trigger] lists[j]).len() == 0,
        ensures
            Self::sum_lens_to(lists, k) == 0,
        decreases k,
    {
        if k > 0 {
            Self::lemma_sum_lens_to_zero(lists, k - 1);
        }
    }

    /// A graph without a single neighbour entry is complete exactly when it
    /// has at most one node: with two nodes or more some pair is not
    /// adjacent, with one node or none there is no pair to check.
    pub proof fn lemma_edgeless_complete(self)
        requires
            self.wf(),
            forall|m: usize| #[trigger] self.adj(m) == Seq::<usize>::empty(),
        ensures
            self.complete() <==> self.node_seq().len() <= 1,
    {
        if self.node_seq().len() >= 2 {
            let a = self.node_seq()[0];
            let b = self.node_seq()[1];
            assert(self.has_node(a) && self.has_node(b));
            assert(a != b);
            assert(!self.adj(a).contains(b));
        } else {
            assert forall|a: usize, b: usize|
                self.has_node(a) && self.has_node(b) && a != b
                    implies #[trigger] self.adj(a).contains(b) by {
                let p = choose|p: int| 0 <= p < self.node_seq().len() && self.node_seq()[p] == a;
                let q = choose|q: int| 0 <= q < self.node_seq().len() && self.node_seq()[q] == b;
                assert(p != q);
            }
        }
    }

    /// Structural queries are functions of the graph value alone: any two
    /// results obtained from the same unmutated graph agree.
    pub proof fn lemma_queries_deterministic(
        self,
        r1: bool,
        r2: bool,
        e1: Seq<(usize, usize)>,
        e2: Seq<(usize, usize)>,
    )
        requires
            r1 == self.complete(),
            r2 == self.complete(),
            e1 == self.edge_seq(),
            e2 == self.edge_seq(),
        ensures
            r1 == r2,
            e1 == e2,
    {
    }

    /// The node identifiers of a well-formed graph are pairwise distinct.
    pub proof fn lemma_node_seq_no_duplicates(self)
        requires
            self.wf(),
        ensures
            self.node_seq().no_duplicates(),
    {
    }

    /// In a well-formed graph the neighbour list of the `i`-th node is the
    /// `i`-th stored list, and that node occurs at index `i` only.
    proof fn lemma_rep_index(self, i: int)
        requires
            self.wf(),
            0 <= i < self.keys@.len(),
        ensures
            self.keys@.index_of_first(self.keys@[i]) == Some(i),
            self.adj(self.keys@[i]) == self.lists@[i]@,
            self.has_node(self.keys@[i]),
    {
        let n = self.keys@[i];
        assert(self.keys@.contains(n));
        self.keys@.index_of_first_ensures(n);
        let j = self.keys@.index_of_first(n)->Some_0;
        assert(self.keys@[j] == n);
        if j < i {
            assert(self.keys@[j] < self.keys@[i]);
        }
        if i < j {
            assert(self.keys@[i] < self.keys@[j]);
        }
    }

    /// An absent node has the empty neighbour list.
    pub proof fn lemma_absent(self, n: usize)
        requires
            !self.has_node(n),
        ensures
            self.adj(n) == Seq::<usize>::empty(),
    {
        self.keys@.index_of_first_ensures(n);
    }

    /// Find the position of `n` among the node identifiers.
    fn find_key(&self, n: usize) -> (r: Option<usize>)
        requires
            self.wf(),
        ensures
            match r {
                Some(i) => {
                    &&& i < self.keys@.len()
                    &&& self.keys@[i as int] == n
                    &&& self.keys@.index_of_first(n) == Some(i as int)
                    &&& self.adj(n) == self.lists@[i as int]@
                    &&& self.has_node(n)
                },
                None => !self.has_node(n),
            },
    {
        let len: usize = self.keys.len();
        let mut i: usize = 0;
        while i < len
            invariant
                len == self.keys@.len(),
                i <= len,
                self.wf(),
                forall|j: int| 0 <= j < i ==> self.keys@[j] != n,
            decreases len - i,
        {
            if self.keys[i] == n {
                proof {
                    self.lemma_rep_index(i as int);
                }
                return Some(i);
            }
            i = i + 1;
        }
        proof {
            if self.has_node(n) {
                let j = choose|j: int| 0 <= j < self.keys@.len() && self.keys@[j] == n;
                assert(self.keys@[j] != n);
            }
        }
        None
    }

    /// Creates a graph with nodes `1..=nodes` and no edges.
    pub fn new(nodes: usize) -> (r: Graph)
        requires
            1 <= nodes,
        ensures
            r.wf(),
            r.deg() == 0,
            r.node_seq().len() == nodes,
            forall|i: int| 0 <= i < nodes ==> r.node_seq()[i] == i + 1,
            forall|n: usize| r.has_node(n) <==> 1 <= n <= nodes,
            forall|n: usize| r.adj(n) == Seq::<usize>::empty(),
            r.edge_sum() == 0,
    {
        let mut keys: Vec<usize> = Vec::new();
        let mut lists: Vec<Vec<usize>> = Vec::new();
        let mut i: usize = 0;
        while i < nodes
            invariant
                i <= nodes,
                keys@.len() == i,
                lists@.len() == i,
                forall|j: int| 0 <= j < i ==> keys@[j] == j + 1,
                forall|j: int| 0 <= j < i ==> lists@[j]@ == Seq::<usize>::empty(),
            decreases nodes - i,
        {
            keys.push(i + 1);
            lists.push(Vec::new());
            i = i + 1;
        }
        let r = Graph { degree: 0, keys, lists };
        proof {
            assert forall|n: usize| r.has_node(n) <==> 1 <= n <= nodes by {
                if 1 <= n <= nodes {
                    assert(r.keys@[n - 1] == n);
                }
                if r.has_node(n) {
                    let j = choose|j: int| 0 <= j < r.keys@.len() && r.keys@[j] == n;
                    assert(r.keys@[j] == j + 1);
                }
            }
            assert forall|n: usize| r.adj(n) == Seq::<usize>::empty() by {
                r.keys@.index_of_first_ensures(n);
                match r.keys@.index_of_first(n) {
                    Some(i) => {
                        assert(r.adj(n) == r.lists@[i]@);
                    },
                    None => {},
                }
            }
            r.lemma_edgeless_sum();
        }
        r
    }

    /// Returns the graph degree: the running high-water mark.
    pub fn degree(&self) -> (r: usize)
        ensures
            r == self.deg(),
    {
        self.degree
    }

    /// Returns the number of nodes of the graph.
    pub fn nlen(&self) -> (r: usize)
        ensures
            r == self.node_seq().len(),
    {
        self.keys.len()
    }

    /// Returns true if the graph contains the node and false otherwise.
    pub fn contains_node(&self, n: usize) -> (r: bool)
        requires
            self.wf(),
        ensures
            r == self.has_node(n),
    {
        match self.find_key(n) {
            Some(_) => true,
            None => false,
        }
    }

    /// Returns the current neighbour count of a node.
    pub fn degree_of(&self, n: usize) -> (r: usize)
        requires
            self.wf(),
            self.has_node(n),
        ensures
            r == self.adj(n).len(),
    {
        match self.find_key(n) {
            Some(i) => self.lists[i].len(),
            None => {
                proof {
                    assert(false);
                }
                0
            },
        }
    }
    /// Facts about removing the first occurrence of `x` from a sequence.
    pub proof fn lemma_remove_first_props(l: Seq<usize>, x: usize)
        ensures
            !l.contains(x) ==> Self::remove_first_val(l, x) == l,
            l.contains(x) ==> Self::remove_first_val(l, x).len() == l.len() - 1,
            Self::remove_first_val(l, x).len() <= l.len(),
            forall|y: usize|
                y != x ==> (Self::remove_first_val(l, x).contains(y) <==> l.contains(y)),
            forall|y: usize| Self::remove_first_val(l, x).contains(y) ==> l.contains(y),
            l.no_duplicates() ==> Self::remove_first_val(l, x).no_duplicates(),
            l.no_duplicates() ==> !Self::remove_first_val(l, x).contains(x),
    {
        l.index_of_first_ensures(x);
        match l.index_of_first(x) {
            Some(i) => {
                let r = l.remove(i);
                assert forall|y: usize| l.contains(y) && y != x implies r.contains(y) by {
                    let k = choose|k: int| 0 <= k < l.len() && l[k] == y;
                    if k < i {
                        assert(r[k] == y);
                    } else {
                        assert(r[k - 1] == y);
                    }
                }
                assert forall|y: usize| r.contains(y) implies l.contains(y) by {
                    let k = choose|k: int| 0 <= k < r.len() && r[k] == y;
                    if k < i {
                        assert(l[k] == y);
                    } else {
                        assert(l[k + 1] == y);
                    }
                }
                if l.no_duplicates() {
                    assert forall|p: int, q: int|
                        0 <= p < r.len() && 0 <= q < r.len() && p != q implies r[p] != r[q] by {
                        let lp: int = if p < i { p } else { p + 1 };
                        let lq: int = if q < i { q } else { q + 1 };
                        assert(r[p] == l[lp]);
                        assert(r[q] == l[lq]);
                    }
                    if r.contains(x) {
                        let k = choose|k: int| 0 <= k < r.len() && r[k] == x;
                        let lk: int = if k < i { k } else { k + 1 };
                        assert(l[lk] == x && l[i] == x && lk != i);
                    }
                }
            },
            None => {},
        }
    }

    /// Removing the just-appended element restores the original list.
    pub proof fn lemma_remove_first_push(l: Seq<usize>, x: usize)
        requires
            !l.contains(x),
        ensures
            Self::remove_first_val(l.push(x), x) == l,
    {
        let p = l.push(x);
        p.index_of_first_ensures(x);
        assert(p[l.len() as int] == x);
        assert(p.contains(x));
        let i = p.index_of_first(x)->Some_0;
        if i < l.len() {
            assert(l[i] == x);
        }
        assert(i == l.len());
        assert(p.remove(i) =~= l);
    }

    /// Inserts a new node in the graph, with no neighbours.
    pub fn insert_node(&mut self, n: usize)
        requires
            old(self).wf(),
            !old(self).has_node(n),
        ensures
            final(self).wf(),
            final(self).deg() == old(self).deg(),
            final(self).node_seq().len() == old(self).node_seq().len() + 1,
            forall|m: usize|
                final(self).has_node(m) <==> (old(self).has_node(m) || m == n),
            final(self).nodes_set() == old(self).nodes_set().insert(n),
            final(self).adj(n) == Seq::<usize>::empty(),
            forall|m: usize| m != n ==> final(self).adj(m) == old(self).adj(m),
            old(self).mirrored() ==> final(self).mirrored(),
            old(self).loop_free() ==> final(self).loop_free(),
            old(self).dedup() ==> final(self).dedup(),
            old(self).deg_covers() ==> final(self).deg_covers(),
    {
        let len: usize = self.keys.len();
        let mut pos: usize = 0;
        while pos < len && self.keys[pos] < n
            invariant
                len == self.keys@.len(),
                pos <= len,
                self.wf(),
                forall|j: int| 0 <= j < pos ==> self.keys@[j] < n,
            decreases len - pos,
        {
            pos = pos + 1;
        }
        let ghost old_keys = self.keys@;
        let ghost old_lists = self.lists@;
        self.keys.insert(pos, n);
        self.lists.insert(pos, Vec::new());
        proof {
            let p = pos as int;
            assert forall|i: int, j: int|
                0 <= i < j < self.keys@.len() implies self.keys@[i] < self.keys@[j] by {
                if i < p && j < p {
                } else if i < p && j == p {
                    assert(self.keys@[i] == old_keys[i]);
                } else if i == p && j > p {
                    assert(self.keys@[j] == old_keys[j - 1]);
                    assert(old_keys[j - 1] >= n);
                    if old_keys[j - 1] == n {
                        assert(old_keys.contains(n));
                    }
                } else if i < p && j > p {
                    assert(self.keys@[i] == old_keys[i] && self.keys@[j] == old_keys[j - 1]);
                    assert(old_keys[i] < n);
                    assert(old_keys[j - 1] >= n);
                } else {
                }
            }
            assert(self.wf());
            assert forall|m: usize|
                self.has_node(m) <==> (old(self).has_node(m) || m == n) by {
                if old_keys.contains(m) {
                    let k = choose|k: int| 0 <= k < old_keys.len() && old_keys[k] == m;
                    if k < p {
                        assert(self.keys@[k] == m);
                    } else {
                        assert(self.keys@[k + 1] == m);
                    }
                }
                assert(self.keys@[p] == n);
                if self.keys@.contains(m) && m != n {
                    let k = choose|k: int| 0 <= k < self.keys@.len() && self.keys@[k] == m;
                    if k < p {
                        assert(old_keys[k] == m);
                    } else {
                        assert(k != p);
                        assert(old_keys[k - 1] == m);
                    }
                }
            }
            assert forall|m: usize|
                self.nodes_set().contains(m) == old(self).nodes_set().insert(n).contains(m) by {
                assert(self.has_node(m) <==> (old(self).has_node(m) || m == n));
            }
            assert(self.nodes_set() =~= old(self).nodes_set().insert(n));
            self.lemma_rep_index(p);
            assert(self.adj(n) == Seq::<usize>::empty());
            assert forall|m: usize| m != n implies self.adj(m) == old(self).adj(m) by {
                if self.keys@.contains(m) {
                    let k = choose|k: int| 0 <= k < self.keys@.len() && self.keys@[k] == m;
                    self.lemma_rep_index(k);
                    if k < p {
                        old(self).lemma_rep_index(k);
                        assert(self.lists@[k] == old_lists[k]);
                    } else {
                        assert(k != p);
                        old(self).lemma_rep_index(k - 1);
                        assert(self.lists@[k] == old_lists[k - 1]);
                    }
                } else {
                    self.lemma_absent(m);
                    if old_keys.contains(m) {
                        let k = choose|k: int| 0 <= k < old_keys.len() && old_keys[k] == m;
                        if k < p {
                            assert(self.keys@[k] == m);
                        } else {
                            assert(self.keys@[k + 1] == m);
                        }
                    }
                    old(self).lemma_absent(m);
                }
            }
            if old(self).mirrored() {
                assert forall|a: usize, b: usize|
                    self.has_node(a) && #[trigger] self.adj(a).contains(b)
                        implies self.has_node(b) && self.adj(b).contains(a) by {
                    assert(self.adj(n) == Seq::<usize>::empty());
                    if a != n {
                        assert(old(self).adj(a).contains(b));
                    }
                }
            }
        }
    }

    /// Membership in a sequence after a push.
    pub proof fn lemma_contains_push(l: Seq<usize>, v: usize, y: usize)
        ensures
            l.contains(y) ==> l.push(v).contains(y),
            l.push(v).contains(y) ==> l.contains(y) || y == v,
            l.push(v).contains(v),
    {
        if l.contains(y) {
            let k = choose|k: int| 0 <= k < l.len() && l[k] == y;
            assert(l.push(v)[k] == y);
        }
        if l.push(v).contains(y) {
            let k = choose|k: int| 0 <= k < l.push(v).len() && l.push(v)[k] == y;
            if k < l.len() {
                assert(l[k] == y);
            }
        }
        assert(l.push(v)[l.len() as int] == v);
    }

    /// Inserts an edge in the graph: appends each endpoint to the other's
    /// neighbour list and raises the degree high-water mark to the larger of
    /// the two new list lengths.  An already-present edge is appended again.
    #[verifier::rlimit(60)]
    pub fn insert_edge(&mut self, e: (usize, usize))
        requires
            old(self).wf(),
            old(self).has_node(e.0),
            old(self).has_node(e.1),
            e.0 != e.1 ==> old(self).adj(e.0).len() + 1 <= usize::MAX
                && old(self).adj(e.1).len() + 1 <= usize::MAX,
            e.0 == e.1 ==> old(self).adj(e.0).len() + 2 <= usize::MAX,
        ensures
            final(self).wf(),
            final(self).node_seq() == old(self).node_seq(),
            e.0 != e.1 ==> final(self).adj(e.0) == old(self).adj(e.0).push(e.1),
            e.0 != e.1 ==> final(self).adj(e.1) == old(self).adj(e.1).push(e.0),
            e.0 == e.1 ==> final(self).adj(e.0) == old(self).adj(e.0).push(e.0).push(e.0),
            forall|m: usize|
                m != e.0 && m != e.1 ==> final(self).adj(m) == old(self).adj(m),
            final(self).deg() >= old(self).deg(),
            final(self).deg() >= final(self).adj(e.0).len(),
            final(self).deg() >= final(self).adj(e.1).len(),
            final(self).deg() <= old(self).deg()
                || final(self).deg() <= final(self).adj(e.0).len()
                || final(self).deg() <= final(self).adj(e.1).len(),
            final(self).has_edge(e.0, e.1) && final(self).has_edge(e.1, e.0),
            old(self).mirrored() ==> final(self).mirrored(),
            old(self).loop_free() && e.0 != e.1 ==> final(self).loop_free(),
            old(self).dedup() && e.0 != e.1 && !old(self).adj(e.0).contains(e.1)
                && !old(self).adj(e.1).contains(e.0) ==> final(self).dedup(),
            old(self).deg_covers() ==> final(self).deg_covers(),
    {
        let a = e.0;
        let b = e.1;
        let ia = match self.find_key(a) {
            Some(i) => i,
            None => {
                proof {
                    assert(false);
                }
                0
            },
        };
        let ghost keys0 = self.keys@;
        let ghost lists0 = self.lists@;
        self.lists[ia].push(b);
        let la = self.lists[ia].len();
        if self.degree < la {
            self.degree = la;
        }
        let ghost mid = *self;
        proof {
            assert(mid.keys@ == keys0);
            assert(mid.wf());
            assert forall|m: usize| m != a implies mid.adj(m) == old(self).adj(m) by {
                mid.keys@.index_of_first_ensures(m);
                match mid.keys@.index_of_first(m) {
                    Some(k) => {
                        assert(keys0[k] == m && keys0[ia as int] == a);
                        assert(k != ia);
                        assert(mid.lists@[k] == lists0[k]);
                    },
                    None => {},
                }
            }
            old(self).lemma_rep_index(ia as int);
            mid.lemma_rep_index(ia as int);
            assert(mid.adj(a) == old(self).adj(a).push(b));
        }
        let ib = match self.find_key(b) {
            Some(i) => i,
            None => {
                proof {
                    assert(false);
                }
                0
            },
        };
        let ghost mlists = mid.lists@;
        self.lists[ib].push(a);
        let lb = self.lists[ib].len();
        if self.degree < lb {
            self.degree = lb;
        }
        proof {
            assert(self.keys@ == keys0);
            assert(self.wf());
            assert forall|m: usize| m != b implies self.adj(m) == mid.adj(m) by {
                self.keys@.index_of_first_ensures(m);
                match self.keys@.index_of_first(m) {
                    Some(k) => {
                        assert(keys0[k] == m && keys0[ib as int] == b);
                        assert(k != ib);
                        assert(self.lists@[k] == mlists[k]);
                    },
                    None => {},
                }
            }
            mid.lemma_rep_index(ib as int);
            self.lemma_rep_index(ib as int);
            assert(self.adj(b) == mid.adj(b).push(a));
            assert(self.adj(a).contains(b)) by {
                if a != b {
                    assert(self.adj(a) == old(self).adj(a).push(b));
                    assert(self.adj(a).last() == b);
                } else {
                    assert(self.adj(a).last() == a);
                }
            }
            assert(self.adj(b).contains(a)) by {
                assert(self.adj(b).last() == a);
            }
            assert forall|m: usize| m != a && m != b implies self.adj(m) == old(self).adj(m) by {
                assert(mid.adj(m) == old(self).adj(m));
                assert(self.adj(m) == mid.adj(m));
            }
            if old(self).deg_covers() {
                assert forall|n: usize| (#[trigger] self.adj(n)).len() <= self.deg() by {
                    if n != a && n != b {
                        assert(self.adj(n) == old(self).adj(n));
                        assert(old(self).adj(n).len() <= old(self).deg());
                    }
                }
            }
            if old(self).mirrored() {
                assert forall|x: usize, y: usize|
                    self.has_node(x) && #[trigger] self.adj(x).contains(y)
                        implies self.has_node(y) && self.adj(y).contains(x) by {
                    if !(x == a && y == b) && !(x == b && y == a) {
                        assert(old(self).adj(x).contains(y)) by {
                            if x == a && x == b {
                                assert(self.adj(a) == old(self).adj(a).push(a).push(a));
                                Self::lemma_contains_push(old(self).adj(a).push(a), a, y);
                                Self::lemma_contains_push(old(self).adj(a), a, y);
                            } else if x == a {
                                assert(self.adj(a) == old(self).adj(a).push(b));
                                Self::lemma_contains_push(old(self).adj(a), b, y);
                            } else if x == b {
                                assert(mid.adj(b) == old(self).adj(b));
                                assert(self.adj(b) == old(self).adj(b).push(a));
                                Self::lemma_contains_push(old(self).adj(b), a, y);
                            } else {
                                assert(mid.adj(x) == old(self).adj(x));
                                assert(self.adj(x) == old(self).adj(x));
                            }
                        }
                        assert(old(self).adj(y).contains(x));
                        assert(self.adj(y).contains(x)) by {
                            if y == a && y == b {
                                assert(self.adj(a) == old(self).adj(a).push(a).push(a));
                                Self::lemma_contains_push(old(self).adj(a).push(a), a, x);
                                Self::lemma_contains_push(old(self).adj(a), a, x);
                            } else if y == a {
                                assert(self.adj(a) == old(self).adj(a).push(b));
                                Self::lemma_contains_push(old(self).adj(a), b, x);
                            } else if y == b {
                                assert(mid.adj(b) == old(self).adj(b));
                                assert(self.adj(b) == old(self).adj(b).push(a));
                                Self::lemma_contains_push(old(self).adj(b), a, x);
                            } else {
                                assert(mid.adj(y) == old(self).adj(y));
                                assert(self.adj(y) == old(self).adj(y));
                            }
                        }
                    }
                }
            }
        }
    }


    /// Removes a node from the graph and strips its first occurrence from
    /// every remaining neighbour list.
    pub fn remove_node(&mut self, n: usize)
        requires
            old(self).wf(),
            old(self).has_node(n),
        ensures
            final(self).wf(),
            final(self).deg() == old(self).deg(),
            final(self).node_seq() == Self::remove_first_val(old(self).node_seq(), n),
            final(self).node_seq().len() == old(self).node_seq().len() - 1,
            forall|m: usize| final(self).has_node(m) <==> (old(self).has_node(m) && m != n),
            final(self).adj(n) == Seq::<usize>::empty(),
            forall|m: usize|
                m != n ==> final(self).adj(m) == Self::remove_first_val(old(self).adj(m), n),
            old(self).dedup() ==> final(self).dedup(),
            old(self).loop_free() ==> final(self).loop_free(),
            old(self).deg_covers() ==> final(self).deg_covers(),
            old(self).mirrored() && old(self).dedup() ==> final(self).mirrored(),
    {
        let pos = match self.find_key(n) {
            Some(i) => i,
            None => {
                proof {
                    assert(false);
                }
                0
            },
        };
        let ghost keys0 = self.keys@;
        let ghost lists0 = self.lists@;
        self.keys.remove(pos);
        self.lists.remove(pos);
        let ghost keys1 = self.keys@;
        let ghost lists1 = self.lists@;
        proof {
            let p = pos as int;
            assert forall|i: int, j: int|
                0 <= i < j < keys1.len() implies keys1[i] < keys1[j] by {
                let i0: int = if i < p { i } else { i + 1 };
                let j0: int = if j < p { j } else { j + 1 };
                assert(keys1[i] == keys0[i0] && keys1[j] == keys0[j0]);
            }
            assert(self.wf());
            Self::lemma_remove_first_props(keys0, n);
            assert(old(self).node_seq().index_of_first(n) == Some(p));
            assert(keys1 == Self::remove_first_val(keys0, n));
            old(self).lemma_node_seq_no_duplicates();
            assert(!keys1.contains(n));
        }
        let mut i: usize = 0;
        let len: usize = self.lists.len();
        while i < len
            invariant
                len == lists1.len(),
                self.lists@.len() == len,
                self.keys@ == keys1,
                self.degree == old(self).deg(),
                i <= len,
                self.wf(),
                forall|j: int|
                    0 <= j < i ==> self.lists@[j]@ == Self::remove_first_val(lists1[j]@, n),
                forall|j: int| i <= j < len ==> self.lists@[j] == lists1[j],
            decreases len - i,
        {
            remove_first_vec(&mut self.lists[i], n);
            i = i + 1;
        }
        proof {
            let p = pos as int;
            assert forall|m: usize|
                self.has_node(m) <==> (old(self).has_node(m) && m != n) by {
                Self::lemma_remove_first_props(keys0, n);
                old(self).lemma_node_seq_no_duplicates();
            }
            assert(!self.has_node(n));
            self.lemma_absent(n);
            assert forall|m: usize|
                m != n implies self.adj(m) == Self::remove_first_val(old(self).adj(m), n) by {
                if self.has_node(m) {
                    let k = choose|k: int| 0 <= k < keys1.len() && keys1[k] == m;
                    self.lemma_rep_index(k);
                    let k0: int = if k < p { k } else { k + 1 };
                    assert(keys0[k0] == m);
                    old(self).lemma_rep_index(k0);
                    assert(lists1[k] == lists0[k0]);
                    assert(self.adj(m) == Self::remove_first_val(lists0[k0]@, n));
                } else {
                    assert(!old(self).has_node(m));
                    self.lemma_absent(m);
                    old(self).lemma_absent(m);
                    Self::lemma_remove_first_props(Seq::<usize>::empty(), n);
                }
            }
            if old(self).dedup() {
                assert forall|m: usize| (#[trigger] self.adj(m)).no_duplicates() by {
                    Self::lemma_remove_first_props(old(self).adj(m), n);
                    if m != n {
                        assert(self.adj(m) == Self::remove_first_val(old(self).adj(m), n));
                    }
                }
            }
            if old(self).loop_free() {
                assert forall|m: usize| !(#[trigger] self.adj(m)).contains(m) by {
                    Self::lemma_remove_first_props(old(self).adj(m), n);
                    if m != n {
                        if self.adj(m).contains(m) {
                            assert(old(self).adj(m).contains(m));
                        }
                    }
                }
            }
            if old(self).deg_covers() {
                assert forall|m: usize| (#[trigger] self.adj(m)).len() <= self.deg() by {
                    Self::lemma_remove_first_props(old(self).adj(m), n);
                    if m != n {
                        assert(self.adj(m).len() <= old(self).adj(m).len());
                        assert(old(self).adj(m).len() <= old(self).deg());
                    }
                }
            }
            if old(self).mirrored() && old(self).dedup() {
                assert forall|x: usize, y: usize|
                    self.has_node(x) && #[trigger] self.adj(x).contains(y)
                        implies self.has_node(y) && self.adj(y).contains(x) by {
                    Self::lemma_remove_first_props(old(self).adj(x), n);
                    assert(x != n);
                    assert(old(self).adj(x).contains(y));
                    assert(y != n) by {
                        if y == n {
                            assert(old(self).adj(x).no_duplicates());
                            assert(!self.adj(x).contains(n));
                        }
                    }
                    assert(old(self).has_node(y) && old(self).adj(y).contains(x));
                    Self::lemma_remove_first_props(old(self).adj(y), n);
                    assert(self.adj(y) == Self::remove_first_val(old(self).adj(y), n));
                    assert(self.adj(y).contains(x));
                }
            }
        }
    }

    /// Removes an edge from the graph: strips the first occurrence of each
    /// endpoint from the other's neighbour list.
    pub fn remove_edge(&mut self, e: (usize, usize))
        requires
            old(self).wf(),
            old(self).has_node(e.0),
            old(self).has_node(e.1),
            old(self).adj(e.0).contains(e.1),
            old(self).adj(e.1).contains(e.0),
        ensures
            final(self).wf(),
            final(self).deg() == old(self).deg(),
            final(self).node_seq() == old(self).node_seq(),
            e.0 != e.1 ==> final(self).adj(e.0)
                == Self::remove_first_val(old(self).adj(e.0), e.1),
            e.0 != e.1 ==> final(self).adj(e.1)
                == Self::remove_first_val(old(self).adj(e.1), e.0),
            e.0 == e.1 ==> final(self).adj(e.0)
                == Self::remove_first_val(Self::remove_first_val(old(self).adj(e.0), e.0), e.0),
            forall|m: usize|
                m != e.0 && m != e.1 ==> final(self).adj(m) == old(self).adj(m),
            old(self).dedup() ==> final(self).dedup(),
            old(self).dedup() ==> !final(self).has_edge(e.0, e.1)
                && !final(self).has_edge(e.1, e.0),
            old(self).loop_free() ==> final(self).loop_free(),
            old(self).deg_covers() ==> final(self).deg_covers(),
            old(self).mirrored() && old(self).dedup() ==> final(self).mirrored(),
    {
        let a = e.0;
        let b = e.1;
        let ia = match self.find_key(a) {
            Some(i) => i,
            None => {
                proof {
                    assert(false);
                }
                0
            },
        };
        let ghost keys0 = self.keys@;
        let ghost lists0 = self.lists@;
        remove_first_vec(&mut self.lists[ia], b);
        let ghost mid = *self;
        proof {
            assert(mid.keys@ == keys0);
            assert(mid.wf());
            assert forall|m: usize| m != a implies mid.adj(m) == old(self).adj(m) by {
                mid.keys@.index_of_first_ensures(m);
                match mid.keys@.index_of_first(m) {
                    Some(k) => {
                        assert(keys0[k] == m && keys0[ia as int] == a);
                        assert(k != ia);
                        assert(mid.lists@[k] == lists0[k]);
                    },
                    None => {},
                }
            }
            old(self).lemma_rep_index(ia as int);
            mid.lemma_rep_index(ia as int);
            assert(mid.adj(a) == Self::remove_first_val(old(self).adj(a), b));
        }
        let ib = match self.find_key(b) {
            Some(i) => i,
            None => {
                proof {
                    assert(false);
                }
                0
            },
        };
        let ghost mlists = mid.lists@;
        remove_first_vec(&mut self.lists[ib], a);
        proof {
            assert(self.keys@ == keys0);
            assert(self.wf());
            assert forall|m: usize| m != b implies self.adj(m) == mid.adj(m) by {
                self.keys@.index_of_first_ensures(m);
                match self.keys@.index_of_first(m) {
                    Some(k) => {
                        assert(keys0[k] == m && keys0[ib as int] == b);
                        assert(k != ib);
                        assert(self.lists@[k] == mlists[k]);
                    },
                    None => {},
                }
            }
            mid.lemma_rep_index(ib as int);
            self.lemma_rep_index(ib as int);
            assert(self.adj(b) == Self::remove_first_val(mid.adj(b), a));
            assert forall|m: usize|
                m != a && m != b implies self.adj(m) == old(self).adj(m) by {
                assert(mid.adj(m) == old(self).adj(m));
                assert(self.adj(m) == mid.adj(m));
            }
            if a != b {
                assert(mid.adj(b) == old(self).adj(b));
                assert(self.adj(a) == mid.adj(a));
            }
            if old(self).dedup() {
                assert forall|m: usize| (#[trigger] self.adj(m)).no_duplicates() by {
                    Self::lemma_remove_first_props(old(self).adj(m), b);
                    Self::lemma_remove_first_props(old(self).adj(m), a);
                    Self::lemma_remove_first_props(Self::remove_first_val(old(self).adj(m), a), a);
                    Self::lemma_remove_first_props(Self::remove_first_val(old(self).adj(m), b), a);
                }
                assert(!self.adj(a).contains(b)) by {
                    if a != b {
                        Self::lemma_remove_first_props(old(self).adj(a), b);
                    } else {
                        Self::lemma_remove_first_props(old(self).adj(a), a);
                        Self::lemma_remove_first_props(Self::remove_first_val(old(self).adj(a), a), a);
                    }
                }
                assert(!self.adj(b).contains(a)) by {
                    Self::lemma_remove_first_props(mid.adj(b), a);
                }
            }
            if old(self).loop_free() {
                assert forall|m: usize| !(#[trigger] self.adj(m)).contains(m) by {
                    if self.adj(m).contains(m) {
                        Self::lemma_remove_first_props(mid.adj(m), a);
                        Self::lemma_remove_first_props(old(self).adj(m), b);
                        assert(old(self).adj(m).contains(m));
                    }
                }
            }
            if old(self).deg_covers() {
                assert forall|m: usize| (#[trigger] self.adj(m)).len() <= self.deg() by {
                    Self::lemma_remove_first_props(mid.adj(m), a);
                    Self::lemma_remove_first_props(old(self).adj(m), b);
                    if m != a && m != b {
                        assert(self.adj(m) == old(self).adj(m));
                    } else {
                        assert(self.adj(m).len() <= old(self).adj(m).len());
                    }
                    assert(old(self).adj(m).len() <= old(self).deg());
                }
            }
            if old(self).mirrored() && old(self).dedup() {
                assert forall|x: usize, y: usize|
                    self.has_node(x) && #[trigger] self.adj(x).contains(y)
                        implies self.has_node(y) && self.adj(y).contains(x) by {
                    Self::lemma_remove_first_props(mid.adj(x), a);
                    Self::lemma_remove_first_props(old(self).adj(x), b);
                    assert(old(self).adj(x).contains(y));
                    assert(old(self).has_node(y) && old(self).adj(y).contains(x));
                    if x == y {
                    } else if (x == a && y == b) || (x == b && y == a) {
                        assert(!self.adj(a).contains(b)) by {
                            if a != b {
                                Self::lemma_remove_first_props(old(self).adj(a), b);
                            } else {
                                Self::lemma_remove_first_props(old(self).adj(a), a);
                                Self::lemma_remove_first_props(
                                    Self::remove_first_val(old(self).adj(a), a), a);
                            }
                        }
                        assert(!self.adj(b).contains(a)) by {
                            Self::lemma_remove_first_props(mid.adj(b), a);
                        }
                        assert(false);
                    } else {
                        assert(self.adj(y).contains(x)) by {
                            Self::lemma_remove_first_props(mid.adj(y), a);
                            Self::lemma_remove_first_props(old(self).adj(y), b);
                        }
                    }
                }
            }
        }
    }


    /// Returns true if the graph is complete and false otherwise: every pair
    /// of distinct nodes must be mutually adjacent.
    pub fn is_complete(&self) -> (r: bool)
        requires
            self.wf(),
        ensures
            r == self.complete(),
    {
        let len: usize = self.keys.len();
        let mut i: usize = 0;
        while i < len
            invariant
                len == self.keys@.len(),
                i <= len,
                self.wf(),
                forall|p: int, q: int|
                    #![trigger self.keys@[p], self.keys@[q]]
                    0 <= p < i && 0 <= q < len && p != q
                        ==> self.adj(self.keys@[p]).contains(self.keys@[q]),
            decreases len - i,
        {
            proof {
                self.lemma_rep_index(i as int);
            }
            let mut j: usize = 0;
            while j < len
                invariant
                    len == self.keys@.len(),
                    i < len,
                    j <= len,
                    self.wf(),
                    self.adj(self.keys@[i as int]) == self.lists@[i as int]@,
                    forall|q: int|
                        0 <= q < j && q != i
                            ==> self.adj(self.keys@[i as int]).contains(#[trigger] self.keys@[q]),

                decreases len - j,
            {
                if j != i {
                    if !contains_val(&self.lists[i], self.keys[j]) {
                        proof {
                            let a = self.keys@[i as int];
                            let b = self.keys@[j as int];
                            assert(self.has_node(a) && self.has_node(b));
                            assert(a != b);
                            assert(!self.adj(a).contains(b));
                        }
                        return false;
                    }
                }
                j = j + 1;
            }
            i = i + 1;
        }
        proof {
            assert forall|a: usize, b: usize|
                self.has_node(a) && self.has_node(b) && a != b
                    implies #[trigger] self.adj(a).contains(b) by {
                let p = choose|p: int| 0 <= p < self.keys@.len() && self.keys@[p] == a;
                let q = choose|q: int| 0 <= q < self.keys@.len() && self.keys@[q] == b;
                assert(p != q);
                assert(self.adj(self.keys@[p]).contains(self.keys@[q]));
            }
        }
        true
    }

    /// Membership and ordering facts about inserting into a sequence.
    proof fn lemma_insert_props(s: Seq<usize>, j: int, v: usize)
        requires
            0 <= j <= s.len(),
        ensures
            forall|y: usize| s.insert(j, v).contains(y) <==> (s.contains(y) || y == v),
            s.no_duplicates() && !s.contains(v) ==> s.insert(j, v).no_duplicates(),
    {
        let t = s.insert(j, v);
        assert(t[j] == v);
        assert forall|y: usize| s.contains(y) implies t.contains(y) by {
            let k = choose|k: int| 0 <= k < s.len() && s[k] == y;
            if k < j {
                assert(t[k] == y);
            } else {
                assert(t[k + 1] == y);
            }
        }
        assert forall|y: usize| t.contains(y) && y != v implies s.contains(y) by {
            let k = choose|k: int| 0 <= k < t.len() && t[k] == y;
            if k < j {
                assert(s[k] == y);
            } else {
                assert(k != j);
                assert(s[k - 1] == y);
            }
        }
        if s.no_duplicates() && !s.contains(v) {
            assert forall|p: int, q: int|
                0 <= p < t.len() && 0 <= q < t.len() && p != q implies t[p] != t[q] by {
                if p != j && q != j {
                    let sp: int = if p < j { p } else { p - 1 };
                    let sq: int = if q < j { q } else { q - 1 };
                    assert(t[p] == s[sp] && t[q] == s[sq]);
                } else if p == j {
                    let sq: int = if q < j { q } else { q - 1 };
                    assert(t[q] == s[sq]);
                    assert(s.contains(s[sq]));
                } else {
                    let sp: int = if p < j { p } else { p - 1 };
                    assert(t[p] == s[sp]);
                    assert(s.contains(s[sp]));
                }
            }
        }
    }

    /// Returns the list of nodes ordered by descending current degree; nodes
    /// of equal degree come in no promised order.
    pub fn nodes_ord_by_degree(&self) -> (r: Vec<usize>)
        requires
            self.wf(),
        ensures
            r@.len() == self.node_seq().len(),
            r@.no_duplicates(),
            forall|n: usize| r@.contains(n) <==> self.has_node(n),
            forall|p: int, q: int|
                0 <= p < q < r@.len() ==> self.adj(r@[p]).len() >= self.adj(r@[q]).len(),
    {
        let mut r: Vec<usize> = Vec::new();
        let len: usize = self.keys.len();
        let mut i: usize = 0;
        while i < len
            invariant
                len == self.keys@.len(),
                i <= len,
                self.wf(),
                r@.len() == i,
                r@.no_duplicates(),
                forall|n: usize| r@.contains(n) <==> self.keys@.take(i as int).contains(n),
                forall|k: int| 0 <= k < r@.len() ==> self.has_node(#[trigger] r@[k]),
                forall|p: int, q: int|
                    0 <= p < q < r@.len() ==> self.adj(r@[p]).len() >= self.adj(r@[q]).len(),
            decreases len - i,
        {
            let n = self.keys[i];
            proof {
                self.lemma_rep_index(i as int);
                self.lemma_node_seq_no_duplicates();
                if r@.contains(n) {
                    assert(self.keys@.take(i as int).contains(n));
                    let k = choose|k: int| 0 <= k < i && self.keys@.take(i as int)[k] == n;
                    assert(self.keys@[k] == n);
                }
            }
            let dn = self.degree_of(n);
            let mut j: usize = 0;
            while j < r.len() && self.degree_of(r[j]) >= dn
                invariant
                    self.wf(),
                    j <= r@.len(),
                    dn == self.adj(n).len(),
                    forall|k: int| 0 <= k < r@.len() ==> self.has_node(#[trigger] r@[k]),
                    forall|p: int, q: int|
                        0 <= p < q < r@.len() ==> self.adj(r@[p]).len() >= self.adj(r@[q]).len(),
                    forall|k: int| 0 <= k < j ==> self.adj(#[trigger] r@[k]).len() >= dn,
                decreases r@.len() - j,
            {
                j = j + 1;
            }
            let ghost r0 = r@;
            r.insert(j, n);
            proof {
                Self::lemma_insert_props(r0, j as int, n);
                assert forall|y: usize|
                    r@.contains(y) <==> self.keys@.take(i + 1).contains(y) by {
                    assert(r@ == r0.insert(j as int, n));
                    assert(r0.insert(j as int, n).contains(y) <==> (r0.contains(y) || y == n));
                    assert(r0.contains(y) <==> self.keys@.take(i as int).contains(y));
                    assert(self.keys@.take(i + 1) =~= self.keys@.take(i as int).push(n));
                    Self::lemma_contains_push(self.keys@.take(i as int), n, y);
                    assert(self.keys@.take(i as int).push(n).contains(y) <==> (self.keys@.take(
                        i as int,
                    ).contains(y) || y == n));
                }
                assert forall|p: int, q: int|
                    0 <= p < q < r@.len() implies self.adj(r@[p]).len() >= self.adj(r@[q]).len() by {
                    let jj = j as int;
                    if p != jj && q != jj {
                        let sp: int = if p < jj { p } else { p - 1 };
                        let sq: int = if q < jj { q } else { q - 1 };
                        assert(r@[p] == r0[sp] && r@[q] == r0[sq]);
                    } else if p == jj {
                        let sq: int = q - 1;
                        assert(r@[q] == r0[sq]);
                        assert(sq >= jj);
                        if jj < r0.len() {
                            assert(self.adj(r0[jj]).len() < dn);
                        }
                    } else {
                        let sp: int = p;
                        assert(r@[p] == r0[sp]);
                        assert(self.adj(r0[sp]).len() >= dn);
                    }
                }
            }
            i = i + 1;
        }
        proof {
            assert(self.keys@.take(len as int) =~= self.keys@);
        }
        r
    }

    /// Returns the list of edges of the graph: scanning nodes in ascending
    /// order, each neighbour entry is reported as `(n, neighbour)` unless the
    /// mirrored pair was reported before.
    pub fn edges(&self) -> (r: Vec<(usize, usize)>)
        requires
            self.wf(),
        ensures
            r@ == self.edge_seq(),
    {
        let mut r: Vec<(usize, usize)> = Vec::new();
        let len: usize = self.keys.len();
        let mut i: usize = 0;
        while i < len
            invariant
                len == self.keys@.len(),
                i <= len,
                self.wf(),
                r@ == self.scan_upto(i as int),
            decreases len - i,
        {
            let n = self.keys[i];
            let ghost acc0 = r@;
            let ghost l = self.lists@[i as int]@;
            let llen: usize = self.lists[i].len();
            proof {
                assert(l.skip(0) =~= l);
            }
            let mut j: usize = 0;
            while j < llen
                invariant
                    len == self.keys@.len(),
                    i < len,
                    self.wf(),
                    n == self.keys@[i as int],
                    l == self.lists@[i as int]@,
                    llen == l.len(),
                    j <= llen,
                    Self::scan_list(r@, n, l.skip(j as int)) == Self::scan_list(acc0, n, l),
                decreases llen - j,
            {
                let an = self.lists[i][j];
                proof {
                    assert(l.skip(j as int)[0] == an);
                    assert(l.skip(j as int).drop_first() =~= l.skip(j + 1));
                }
                let ghost rpre = r@;
                if !contains_pair(&r, (an, n)) {
                    r.push((n, an));
                }
                proof {
                    assert(Self::scan_list(r@, n, l.skip(j + 1))
                        == Self::scan_list(rpre, n, l.skip(j as int)));
                }
                j = j + 1;
            }
            proof {
                assert(l.skip(llen as int) =~= Seq::<usize>::empty());
                assert(Self::scan_list(r@, n, l.skip(llen as int)) == r@);
                assert(r@ == Self::scan_list(acc0, n, l));
                assert(r@ == self.scan_upto(i + 1));
            }
            i = i + 1;
        }
        r
    }


    /// Folding one node's list into the scan appends the pairs `(n, b)` for
    /// exactly the entries `b` above `n`, provided the accumulator already
    /// holds the mirrored pair for each entry below `n` and no pair for any
    /// entry above `n`.
    proof fn lemma_scan_list_props(acc: Seq<(usize, usize)>, n: usize, l: Seq<usize>)
        requires
            forall|k: int| 0 <= k < l.len() ==> #[trigger] l[k] != n,
            forall|k: int| 0 <= k < l.len() && #[trigger] l[k] < n ==> acc.contains((l[k], n)),
            forall|k: int| 0 <= k < l.len() && #[trigger] l[k] > n ==> !acc.contains((l[k], n)),
        ensures
            Self::scan_list(acc, n, l).len() == acc.len() + gt_count(l, n),
            forall|pr: (usize, usize)|
                #[trigger] Self::scan_list(acc, n, l).contains(pr) <==> (acc.contains(pr) || (
                pr.0 == n && pr.1 > n && l.contains(pr.1))),
        decreases l.len(),
    {
        reveal_with_fuel(Seq::filter, 3);
        if l.len() == 0 {
        } else {
            let b = l[0];
            let rest = l.drop_first();
            assert(l[0] != n);
            assert(l =~= seq![b] + rest);
            Seq::filter_distributes_over_add(seq![b], rest, |x: usize| n < x);
            assert(seq![b].drop_last() =~= Seq::<usize>::empty());
            assert(seq![b].filter(|x: usize| n < x) == if n < b {
                Seq::<usize>::empty().push(b)
            } else {
                Seq::<usize>::empty()
            });
            assert forall|k: int| 0 <= k < rest.len() implies #[trigger] rest[k] != n by {
                assert(rest[k] == l[k + 1]);
            }
            if b < n {
                assert(acc.contains((b, n)));
                assert(Self::scan_list(acc, n, l) == Self::scan_list(acc, n, rest));
                assert forall|k: int| 0 <= k < rest.len() && #[trigger] rest[k] < n
                    implies acc.contains((rest[k], n)) by {
                    assert(rest[k] == l[k + 1]);
                }
                assert forall|k: int| 0 <= k < rest.len() && #[trigger] rest[k] > n
                    implies !acc.contains((rest[k], n)) by {
                    assert(rest[k] == l[k + 1]);
                }
                Self::lemma_scan_list_props(acc, n, rest);
                assert forall|pr: (usize, usize)|
                    #[trigger] Self::scan_list(acc, n, l).contains(pr) <==> (acc.contains(pr)
                        || (pr.0 == n && pr.1 > n && l.contains(pr.1))) by {
                    if pr.0 == n && pr.1 > n {
                        if rest.contains(pr.1) {
                            let k = choose|k: int| 0 <= k < rest.len() && rest[k] == pr.1;
                            assert(l[k + 1] == pr.1);
                        }
                        if l.contains(pr.1) {
                            let k = choose|k: int| 0 <= k < l.len() && l[k] == pr.1;
                            assert(k != 0);
                            assert(rest[k - 1] == pr.1);
                        }
                    }
                }
            } else {
                assert(b > n);
                assert(!acc.contains((b, n)));
                let acc2 = acc.push((n, b));
                assert(Self::scan_list(acc, n, l) == Self::scan_list(acc2, n, rest));
                assert forall|k: int| 0 <= k < rest.len() && #[trigger] rest[k] < n
                    implies acc2.contains((rest[k], n)) by {
                    assert(rest[k] == l[k + 1]);
                    lemma_contains_push_pair(acc, (n, b), (rest[k], n));
                }
                assert forall|k: int| 0 <= k < rest.len() && #[trigger] rest[k] > n
                    implies !acc2.contains((rest[k], n)) by {
                    assert(rest[k] == l[k + 1]);
                    lemma_contains_push_pair(acc, (n, b), (rest[k], n));
                }
                Self::lemma_scan_list_props(acc2, n, rest);
                assert forall|pr: (usize, usize)|
                    #[trigger] Self::scan_list(acc, n, l).contains(pr) <==> (acc.contains(pr)
                        || (pr.0 == n && pr.1 > n && l.contains(pr.1))) by {
                    lemma_contains_push_pair(acc, (n, b), pr);
                    if pr.0 == n && pr.1 > n {
                        if rest.contains(pr.1) {
                            let k = choose|k: int| 0 <= k < rest.len() && rest[k] == pr.1;
                            assert(l[k + 1] == pr.1);
                        }
                        if l.contains(pr.1) && pr.1 != b {
                            let k = choose|k: int| 0 <= k < l.len() && l[k] == pr.1;
                            assert(k != 0);
                            assert(rest[k - 1] == pr.1);
                        }
                    }
                }
            }
        }
    }

    /// Over the first `k` nodes in ascending order, the edge scan holds
    /// exactly one pair `(a, b)` per neighbour entry `b` above a scanned
    /// node `a`.
    proof fn lemma_scan_props(self, k: int)
        requires
            self.wf(),
            self.mirrored(),
            self.loop_free(),
            0 <= k <= self.keys@.len(),
        ensures
            self.scan_upto(k).len() == sum_gt(
                self.keys@,
                self.lists@.map_values(|l: Vec<usize>| l@),
                k,
            ),
            forall|pr: (usize, usize)|
                #[trigger] self.scan_upto(k).contains(pr) <==> (self.keys@.take(k).contains(pr.0)
                    && self.adj(pr.0).contains(pr.1) && pr.0 < pr.1),
        decreases k,
    {
        if k > 0 {
            self.lemma_scan_props(k - 1);
            let n = self.keys@[k - 1];
            let l = self.lists@[k - 1]@;
            self.lemma_rep_index(k - 1);
            assert(self.adj(n) == l);
            let prev = self.scan_upto(k - 1);
            assert forall|j: int| 0 <= j < l.len() implies #[trigger] l[j] != n by {
                if l[j] == n {
                    assert(self.adj(n).contains(n));
                }
            }
            assert forall|j: int| 0 <= j < l.len() && #[trigger] l[j] < n
                implies prev.contains((l[j], n)) by {
                let b = l[j];
                assert(self.adj(n).contains(b));
                assert(self.has_node(b) && self.adj(b).contains(n));
                let jb = choose|jb: int| 0 <= jb < self.keys@.len() && self.keys@[jb] == b;
                assert(jb < k - 1) by {
                    if jb >= k - 1 {
                        assert(self.keys@[k - 1] <= self.keys@[jb]);
                    }
                }
                assert(self.keys@.take(k - 1)[jb] == b);
                assert(self.keys@.take(k - 1).contains(b));
            }
            assert forall|j: int| 0 <= j < l.len() && #[trigger] l[j] > n
                implies !prev.contains((l[j], n)) by {
                if prev.contains((l[j], n)) {
                    let tk = self.keys@.take(k - 1);
                    assert(tk.contains(l[j]));
                    let jb = choose|jb: int| 0 <= jb < tk.len() && tk[jb] == l[j];
                    assert(self.keys@[jb] == l[j]);
                    assert(self.keys@[jb] < self.keys@[k - 1]);
                }
            }
            Self::lemma_scan_list_props(prev, n, l);
            assert(self.scan_upto(k) == Self::scan_list(prev, n, l));
            assert forall|pr: (usize, usize)|
                #[trigger] self.scan_upto(k).contains(pr) <==> (self.keys@.take(k).contains(pr.0)
                    && self.adj(pr.0).contains(pr.1) && pr.0 < pr.1) by {
                assert(self.keys@.take(k) =~= self.keys@.take(k - 1).push(n));
                Self::lemma_contains_push(self.keys@.take(k - 1), n, pr.0);
                if self.scan_upto(k).contains(pr) {
                    if prev.contains(pr) {
                        assert(self.keys@.take(k - 1).contains(pr.0));
                    } else {
                        assert(pr.0 == n && pr.1 > n && l.contains(pr.1));
                        assert(self.keys@.take(k).contains(n));
                    }
                }
                if self.keys@.take(k).contains(pr.0) && self.adj(pr.0).contains(pr.1) && pr.0
                    < pr.1 {
                    if self.keys@.take(k - 1).contains(pr.0) {
                        assert(prev.contains(pr));
                    } else {
                        assert(pr.0 == n);
                    }
                }
            }
        }
    }

    /// Every neighbour entry of a loop-free graph lies above or below its
    /// node, so the total entry count splits into the two sums.
    proof fn lemma_sum_split(self, k: int)
        requires
            self.wf(),
            self.loop_free(),
            0 <= k <= self.keys@.len(),
        ensures
            Self::sum_lens_to(self.lists@.map_values(|l: Vec<usize>| l@), k) == sum_gt(
                self.keys@,
                self.lists@.map_values(|l: Vec<usize>| l@),
                k,
            ) + sum_lt(self.keys@, self.lists@.map_values(|l: Vec<usize>| l@), k),
        decreases k,
    {
        if k > 0 {
            self.lemma_sum_split(k - 1);
            let n = self.keys@[k - 1];
            let l = self.lists@[k - 1]@;
            self.lemma_rep_index(k - 1);
            assert(!l.contains(n)) by {
                if l.contains(n) {
                    assert(self.adj(n).contains(n));
                }
            }
            lemma_filter_partition(l, n);
        }
    }


    /// Every undirected edge of a graph whose lists mirror each other, list
    /// no node twice and no node against itself, is listed at both endpoints
    /// and reported once by the edge scan: the number of edges computed from
    /// list lengths equals the length of the edge listing.
    pub proof fn lemma_elen_matches_edges(self)
        requires
            self.wf(),
            self.mirrored(),
            self.loop_free(),
            self.dedup(),
        ensures
            self.edge_sum() == 2 * self.edge_seq().len(),
            self.edge_sum() / 2 == self.edge_seq().len(),
    {
        let len = self.keys@.len() as int;
        let ls = self.lists@.map_values(|l: Vec<usize>| l@);
        self.lemma_scan_props(len);
        self.lemma_sum_split(len);
        assert forall|i: int| 0 <= i < ls.len() implies (#[trigger] ls[i]).no_duplicates() by {
            self.lemma_rep_index(i);
            assert(ls[i] == self.adj(self.keys@[i]));
        }
        assert forall|i: int| 0 <= i < ls.len() implies !(#[trigger] ls[i]).contains(
            self.keys@[i]) by {
            self.lemma_rep_index(i);
            assert(ls[i] == self.adj(self.keys@[i]));
        }
        assert forall|i: int, b: usize|
            0 <= i < ls.len() && #[trigger] ls[i].contains(b) implies exists|j: int|
                0 <= j < self.keys@.len() && self.keys@[j] == b && #[trigger] ls[j].contains(
                self.keys@[i]) by {
            self.lemma_rep_index(i);
            assert(self.adj(self.keys@[i]).contains(b));
            assert(self.has_node(b) && self.adj(b).contains(self.keys@[i]));
            let j = choose|j: int| 0 <= j < self.keys@.len() && self.keys@[j] == b;
            self.lemma_rep_index(j);
            assert(ls[j] == self.adj(b));
            assert(ls[j].contains(self.keys@[i]));
        }
        lemma_handshake(self.keys@, ls);
        assert(self.edge_sum() == sum_gt(self.keys@, ls, len) + sum_lt(self.keys@, ls, len));
        assert(self.edge_sum() == 2 * self.edge_seq().len());
    }

    /// The two graphs have identical stored fields.
    pub closed spec fn same_rep(self, o: Graph) -> bool {
        &&& self.degree == o.degree
        &&& self.keys@ == o.keys@
        &&& self.lists@.map_values(|l: Vec<usize>| l@) == o.lists@.map_values(|l: Vec<usize>| l@)
    }

    /// Returns the list of nodes of the graph, in ascending order.
    pub fn nodes(&self) -> (r: Vec<usize>)
        ensures
            r@ == self.node_seq(),
    {
        let mut r: Vec<usize> = Vec::new();
        let mut i: usize = 0;
        let len: usize = self.keys.len();
        while i < len
            invariant
                len == self.keys@.len(),
                i <= len,
                r@ == self.keys@.take(i as int),
            decreases len - i,
        {
            r.push(self.keys[i]);
            proof {
                assert(r@ =~= self.keys@.take(i + 1));
            }
            i = i + 1;
        }
        proof {
            assert(r@ =~= self.keys@);
        }
        r
    }

    /// Returns the adjacency list of a node.
    pub fn adjlst_of(&self, n: usize) -> (r: &Vec<usize>)
        requires
            self.wf(),
            self.has_node(n),
        ensures
            r@ == self.adj(n),
    {
        match self.find_key(n) {
            Some(i) => &self.lists[i],
            None => {
                proof {
                    assert(false);
                }
                &self.lists[0]
            },
        }
    }

    /// Returns true if the graph contains the edge and false otherwise;
    /// an absent endpoint yields false, not a failure.
    pub fn contains_edge(&self, e: (usize, usize)) -> (r: bool)
        requires
            self.wf(),
        ensures
            r == self.has_edge(e.0, e.1),
    {
        let a = e.0;
        let b = e.1;
        let ia = match self.find_key(a) {
            Some(i) => i,
            None => {
                return false;
            },
        };
        let ib = match self.find_key(b) {
            Some(i) => i,
            None => {
                return false;
            },
        };
        if !contains_val(&self.lists[ia], b) {
            return false;
        }
        if !contains_val(&self.lists[ib], a) {
            return false;
        }
        true
    }

    /// Returns true if the graph is empty and false otherwise; an empty
    /// graph must carry degree zero (internal consistency, not user-facing).
    pub fn is_empty(&self) -> (r: bool)
        requires
            self.node_seq().len() == 0 ==> self.deg() == 0,
        ensures
            r == (self.node_seq().len() == 0),
    {
        if self.keys.len() == 0 {
            proof {
                assert(self.deg() == 0);
            }
            true
        } else {
            false
        }
    }

    /// Returns the number of edges of the graph: half the total neighbour
    /// count, each edge being listed at both endpoints.
    pub fn elen(&self) -> (r: usize)
        requires
            self.wf(),
            self.edge_sum() <= usize::MAX,
        ensures
            r == self.edge_sum() / 2,
    {
        let ghost lseqs = self.lists@.map_values(|l: Vec<usize>| l@);
        let mut sum: usize = 0;
        let mut i: usize = 0;
        let len: usize = self.lists.len();
        proof {
            Self::lemma_sum_lens_to_bounds(lseqs, len as int);
        }
        while i < len
            invariant
                len == self.lists@.len(),
                i <= len,
                lseqs == self.lists@.map_values(|l: Vec<usize>| l@),
                sum == Self::sum_lens_to(lseqs, i as int),
                Self::sum_lens_to(lseqs, len as int) <= usize::MAX,
            decreases len - i,
        {
            proof {
                Self::lemma_sum_lens_to_step(lseqs, i as int, len as int);
            }
            sum = sum + self.lists[i].len();
            i = i + 1;
        }
        sum / 2
    }

    /// Partial sums of neighbour-list lengths are non-negative and
    /// non-decreasing in the number of lists taken.
    proof fn lemma_sum_lens_to_bounds(lists: Seq<Seq<usize>>, k: int)
        ensures
            Self::sum_lens_to(lists, k) >= 0,
        decreases k,
    {
        if k > 0 {
            Self::lemma_sum_lens_to_bounds(lists, k - 1);
        }
    }

    /// Extending the partial sum by one more list adds that list's length.
    proof fn lemma_sum_lens_to_step(lists: Seq<Seq<usize>>, i: int, k: int)
        requires
            0 <= i < k,
        ensures
            Self::sum_lens_to(lists, i) + lists[i].len() <= Self::sum_lens_to(lists, k),
        decreases k,
    {
        Self::lemma_sum_lens_to_bounds(lists, i);
        if i + 1 < k {
            Self::lemma_sum_lens_to_step(lists, i, k - 1);
            Self::lemma_sum_lens_to_bounds(lists, k - 1);
        }
    }
}

/// Every element of a filtered sequence comes from the original and
/// satisfies the predicate, and conversely.
pub(crate) proof fn lemma_filter_membership(s: Seq<usize>, pred: spec_fn(usize) -> bool, y: usize)
    ensures
        s.filter(pred).contains(y) <==> (s.contains(y) && pred(y)),
    decreases s.len(),
{
    reveal(Seq::filter);
    if s.len() == 0 {
    } else {
        let t = s.drop_last();
        lemma_filter_membership(t, pred, y);
        assert(s =~= t.push(s.last()));
        Graph::lemma_contains_push(t, s.last(), y);
        if pred(s.last()) {
            Graph::lemma_contains_push(t.filter(pred), s.last(), y);
        }
    }
}

/// Filtering a duplicate-free sequence yields a duplicate-free sequence.
pub(crate) proof fn lemma_filter_no_duplicates(s: Seq<usize>, pred: spec_fn(usize) -> bool)
    requires
        s.no_duplicates(),
    ensures
        s.filter(pred).no_duplicates(),
    decreases s.len(),
{
    reveal(Seq::filter);
    if s.len() == 0 {
    } else {
        let t = s.drop_last();
        assert(t.no_duplicates());
        lemma_filter_no_duplicates(t, pred);
        if pred(s.last()) {
            assert(!t.contains(s.last())) by {
                if t.contains(s.last()) {
                    let k = choose|k: int| 0 <= k < t.len() && t[k] == s.last();
                    assert(s[k] == s[s.len() - 1]);
                }
            }
            lemma_filter_membership(t, pred, s.last());
            let f = t.filter(pred);
            assert(s.filter(pred) == f.push(s.last()));
            assert forall|p: int, q: int|
                0 <= p < f.push(s.last()).len() && 0 <= q < f.push(s.last()).len() && p != q
                    implies f.push(s.last())[p] != f.push(s.last())[q] by {
                if p < f.len() && q < f.len() {
                } else if p == f.len() {
                    assert(f.contains(f[q]));
                } else if q == f.len() {
                    assert(f.contains(f[p]));
                }
            }
        }
    }
}

/// A prefix of a duplicate-free sequence is duplicate-free.
pub(crate) proof fn lemma_take_no_dup(s: Seq<usize>, k: int)
    requires
        s.no_duplicates(),
        0 <= k <= s.len(),
    ensures
        s.take(k).no_duplicates(),
{
    let t = s.take(k);
    assert forall|p: int, q: int|
        0 <= p < t.len() && 0 <= q < t.len() && p != q implies t[p] != t[q] by {
        assert(s[p] != s[q]);
    }
}

/// A duplicate-free sequence has as many elements as its set of values.
pub(crate) proof fn lemma_no_dup_len(s: Seq<usize>)
    requires
        s.no_duplicates(),
    ensures
        s.to_set().finite(),
        s.to_set().len() == s.len(),
{
    vstd::seq_lib::seq_to_set_is_finite::<usize>(s);
    s.unique_seq_to_set();
}

/// Filtering after appending one element: the element is kept at the end
/// exactly when it satisfies the predicate.
pub(crate) proof fn lemma_filter_push(t: Seq<usize>, x: usize, pred: spec_fn(usize) -> bool)
    ensures
        t.push(x).filter(pred) == if pred(x) {
            t.filter(pred).push(x)
        } else {
            t.filter(pred)
        },
{
    reveal(Seq::filter);
    let p = t.push(x);
    assert(p.drop_last() =~= t);
    assert(p.last() == x);
}

/// Removing one element changes a filtered length by one exactly when the
/// element satisfies the predicate.
proof fn lemma_filter_remove(l: Seq<usize>, idx: int, pred: spec_fn(usize) -> bool)
    requires
        0 <= idx < l.len(),
    ensures
        l.remove(idx).filter(pred).len() == l.filter(pred).len() - (if pred(l[idx]) {
            1int
        } else {
            0
        }),
    decreases l.len(),
{
    reveal(Seq::filter);
    if idx == l.len() - 1 {
        assert(l.remove(idx) =~= l.drop_last());
    } else {
        let dl = l.drop_last();
        lemma_filter_remove(dl, idx, pred);
        assert(l.remove(idx).drop_last() =~= dl.remove(idx));
        assert(l.remove(idx).last() == l.last());
        assert(dl[idx] == l[idx]);
    }
}

/// A filter that keeps every element keeps the sequence.
proof fn lemma_filter_all(l: Seq<usize>, pred: spec_fn(usize) -> bool)
    requires
        forall|i: int| 0 <= i < l.len() ==> pred(#[trigger] l[i]),
    ensures
        l.filter(pred) == l,
    decreases l.len(),
{
    reveal(Seq::filter);
    if l.len() > 0 {
        let dl = l.drop_last();
        lemma_filter_all(dl, pred);
        assert(dl.push(l.last()) =~= l);
    }
}

/// A filter that keeps no element keeps nothing.
proof fn lemma_filter_none(l: Seq<usize>, pred: spec_fn(usize) -> bool)
    requires
        forall|i: int| 0 <= i < l.len() ==> !pred(#[trigger] l[i]),
    ensures
        l.filter(pred).len() == 0,
{
    if l.filter(pred).len() > 0 {
        let y = l.filter(pred)[0];
        assert(l.filter(pred).contains(y));
        lemma_filter_membership(l, pred, y);
        let k = choose|k: int| 0 <= k < l.len() && l[k] == y;
        assert(!pred(l[k]));
        broadcast use vstd::seq_lib::group_filter_ensures;

        assert(pred(y));
    }
}

/// Every entry of a list that avoids `a` lies strictly above or below it.
proof fn lemma_filter_partition(l: Seq<usize>, a: usize)
    requires
        !l.contains(a),
    ensures
        l.len() == l.filter(|x: usize| a < x).len() + l.filter(|x: usize| x < a).len(),
    decreases l.len(),
{
    reveal(Seq::filter);
    if l.len() > 0 {
        let dl = l.drop_last();
        assert(!dl.contains(a)) by {
            if dl.contains(a) {
                let k = choose|k: int| 0 <= k < dl.len() && dl[k] == a;
                assert(l[k] == a);
            }
        }
        lemma_filter_partition(dl, a);
        assert(l.last() != a) by {
            if l.last() == a {
                assert(l[l.len() - 1] == a);
            }
        }
    }
}

/// Membership in a sequence of pairs after a push.
proof fn lemma_contains_push_pair(l: Seq<(usize, usize)>, v: (usize, usize), y: (usize, usize))
    ensures
        l.push(v).contains(y) <==> (l.contains(y) || y == v),
{
    if l.contains(y) {
        let k = choose|k: int| 0 <= k < l.len() && l[k] == y;
        assert(l.push(v)[k] == y);
    }
    if l.push(v).contains(y) {
        let k = choose|k: int| 0 <= k < l.push(v).len() && l.push(v)[k] == y;
        if k < l.len() {
            assert(l[k] == y);
        }
    }
    assert(l.push(v)[l.len() as int] == v);
}


/// Number of entries of `l` strictly above `a`.
spec fn gt_count(l: Seq<usize>, a: usize) -> int {
    l.filter(|x: usize| a < x).len() as int
}

/// Number of entries of `l` strictly below `a`.
spec fn lt_count(l: Seq<usize>, a: usize) -> int {
    l.filter(|x: usize| x < a).len() as int
}

/// Sum over the first `k` nodes of the entries above each node.
spec fn sum_gt(keys: Seq<usize>, lists: Seq<Seq<usize>>, k: int) -> int
    decreases k,
{
    if k <= 0 {
        0
    } else {
        sum_gt(keys, lists, k - 1) + gt_count(lists[k - 1], keys[k - 1])
    }
}

/// Sum over the first `k` nodes of the entries below each node.
spec fn sum_lt(keys: Seq<usize>, lists: Seq<Seq<usize>>, k: int) -> int
    decreases k,
{
    if k <= 0 {
        0
    } else {
        sum_lt(keys, lists, k - 1) + lt_count(lists[k - 1], keys[k - 1])
    }
}


/// Sums over a prefix depend only on that prefix.
proof fn lemma_sum_prefix_eq(
    keys1: Seq<usize>,
    lists1: Seq<Seq<usize>>,
    keys2: Seq<usize>,
    lists2: Seq<Seq<usize>>,
    k: int,
)
    requires
        forall|i: int| 0 <= i < k ==> #[trigger] keys1[i] == keys2[i],
        forall|i: int| 0 <= i < k ==> #[trigger] lists1[i] == lists2[i],
    ensures
        sum_gt(keys1, lists1, k) == sum_gt(keys2, lists2, k),
        sum_lt(keys1, lists1, k) == sum_lt(keys2, lists2, k),
    decreases k,
{
    if k > 0 {
        lemma_sum_prefix_eq(keys1, lists1, keys2, lists2, k - 1);
    }
}

/// Removing the one occurrence of a node `z` above every listed node takes
/// one entry out of each above-count where `z` was listed, and leaves the
/// below-counts alone; the entries taken out are counted by the prefix of
/// node identifiers that `z`'s own list mentions.
proof fn lemma_reduced_sums(
    keys: Seq<usize>,
    lists: Seq<Seq<usize>>,
    lists2: Seq<Seq<usize>>,
    z: usize,
    zlist: Seq<usize>,
    k: int,
)
    requires
        0 <= k,
        k <= keys.len(),
        k <= lists.len(),
        k <= lists2.len(),
        forall|i: int| 0 <= i < k ==> #[trigger] keys[i] < z,
        forall|i: int| 0 <= i < k ==> (#[trigger] lists[i]).no_duplicates(),
        forall|i: int| 0 <= i < k ==> #[trigger] lists2[i] == Graph::remove_first_val(
            lists[i],
            z,
        ),
        forall|i: int|
            0 <= i < k ==> ((#[trigger] lists[i]).contains(z) <==> zlist.contains(keys[i])),
    ensures
        sum_gt(keys, lists, k) == sum_gt(keys, lists2, k) + keys.take(k).filter(
            |b: usize| zlist.contains(b),
        ).len(),
        sum_lt(keys, lists, k) == sum_lt(keys, lists2, k),
    decreases k,
{
    if k == 0 {
        assert(keys.take(0) =~= Seq::<usize>::empty());
        assert(Seq::<usize>::empty().filter(|b: usize| zlist.contains(b)).len() == 0) by {
            reveal_with_fuel(Seq::filter, 2);
        }
    } else {
        lemma_reduced_sums(keys, lists, lists2, z, zlist, k - 1);
        let a = keys[k - 1];
        let l = lists[k - 1];
        assert(keys.take(k) =~= keys.take(k - 1).push(a));
        lemma_filter_push(keys.take(k - 1), a, |b: usize| zlist.contains(b));
        l.index_of_first_ensures(z);
        if l.contains(z) {
            let idx = l.index_of_first(z)->Some_0;
            assert(lists2[k - 1] == l.remove(idx));
            lemma_filter_remove(l, idx, |x: usize| a < x);
            lemma_filter_remove(l, idx, |x: usize| x < a);
            assert(a < l[idx] && !(l[idx] < a));
            assert(zlist.contains(a));
        } else {
            assert(lists2[k - 1] == l);
            assert(!zlist.contains(a));
        }
    }
}

/// Over a sorted, duplicate-free, loop-free adjacency map in which every
/// listed node lists back, entries above their node and entries below their
/// node are equally many: each undirected edge contributes one of each.
#[verifier::rlimit(100)]
proof fn lemma_handshake(keys: Seq<usize>, lists: Seq<Seq<usize>>)
    requires
        keys.len() == lists.len(),
        forall|i: int, j: int| 0 <= i < j < keys.len() ==> keys[i] < keys[j],
        forall|i: int| 0 <= i < lists.len() ==> (#[trigger] lists[i]).no_duplicates(),
        forall|i: int| 0 <= i < lists.len() ==> !(#[trigger] lists[i]).contains(keys[i]),
        forall|i: int, b: usize|
            0 <= i < lists.len() && #[trigger] lists[i].contains(b) ==> exists|j: int|
                0 <= j < keys.len() && keys[j] == b && #[trigger] lists[j].contains(keys[i]),
    ensures
        sum_gt(keys, lists, keys.len() as int) == sum_lt(keys, lists, keys.len() as int),
    decreases keys.len(),
{
    let len = keys.len() as int;
    if len > 0 {
        let m = len - 1;
        let z = keys[m];
        let zl = lists[m];
        assert forall|t: int| 0 <= t < zl.len() implies zl[t] < z by {
            let b = zl[t];
            assert(zl.contains(b));
            let j = choose|j: int|
                0 <= j < keys.len() && keys[j] == b && #[trigger] lists[j].contains(keys[m]);
            if j == m {
                assert(zl.contains(z));
            } else {
                assert(keys[j] < keys[m]);
            }
        }
        assert(gt_count(zl, z) == 0) by {
            lemma_filter_none(zl, |x: usize| z < x);
        }
        assert(lt_count(zl, z) == zl.len()) by {
            lemma_filter_all(zl, |x: usize| x < z);
        }
        let keys2 = keys.drop_last();
        let lists2 = Seq::new(m as nat, |i: int| Graph::remove_first_val(lists[i], z));
        assert forall|i: int| 0 <= i < m implies ((#[trigger] lists[i]).contains(z)
            <==> zl.contains(keys[i])) by {
            if lists[i].contains(z) {
                let j = choose|j: int|
                    0 <= j < keys.len() && keys[j] == z && #[trigger] lists[j].contains(keys[i]);
                assert(j == m) by {
                    if j < m {
                        assert(keys[j] < keys[m]);
                    }
                }
            }
            if zl.contains(keys[i]) {
                let j = choose|j: int|
                    0 <= j < keys.len() && keys[j] == keys[i] && #[trigger] lists[j].contains(
                        keys[m],
                    );
                assert(j == i) by {
                    if j < i {
                        assert(keys[j] < keys[i]);
                    }
                    if i < j {
                        assert(keys[i] < keys[j]);
                    }
                }
            }
        }
        // the reduced map keeps every hypothesis
        assert forall|i: int| 0 <= i < lists2.len() implies (#[trigger] lists2[i])
            .no_duplicates() by {
            Graph::lemma_remove_first_props(lists[i], z);
        }
        assert forall|i: int| 0 <= i < lists2.len() implies !(#[trigger] lists2[i]).contains(
            keys2[i]) by {
            Graph::lemma_remove_first_props(lists[i], z);
            assert(keys2[i] == keys[i]);
            if lists2[i].contains(keys[i]) {
                assert(lists[i].contains(keys[i]));
            }
        }
        assert forall|i: int, b: usize|
            0 <= i < lists2.len() && #[trigger] lists2[i].contains(b) implies exists|j: int|
                0 <= j < keys2.len() && keys2[j] == b && #[trigger] lists2[j].contains(
                keys2[i]) by {
            Graph::lemma_remove_first_props(lists[i], z);
            assert(lists[i].contains(b));
            assert(b != z) by {
                if b == z {
                    assert(!lists2[i].contains(z));
                }
            }
            let j = choose|j: int|
                0 <= j < keys.len() && keys[j] == b && #[trigger] lists[j].contains(keys[i]);
            assert(j < m) by {
                if j == m {
                    assert(keys[m] == b);
                }
            }
            Graph::lemma_remove_first_props(lists[j], z);
            assert(keys[i] != z);
            assert(lists2[j].contains(keys[i]));
            assert(keys2[j] == b && keys2[i] == keys[i]);
        }
        lemma_handshake(keys2, lists2);
        lemma_sum_prefix_eq(keys2, lists2, keys, lists2, m);
        lemma_reduced_sums(keys, lists, lists2, z, zl, m);
        // the entries struck out are exactly the nodes on z's own list
        let ind = keys.take(m).filter(|b: usize| zl.contains(b));
        assert(ind.len() == zl.len()) by {
            assert(keys.no_duplicates());
            lemma_take_no_dup(keys, m);
            lemma_filter_no_duplicates(keys.take(m), |b: usize| zl.contains(b));
            assert forall|y: usize| ind.contains(y) <==> zl.contains(y) by {
                lemma_filter_membership(keys.take(m), |b: usize| zl.contains(b), y);
                if zl.contains(y) {
                    let j = choose|j: int|
                        0 <= j < keys.len() && keys[j] == y && #[trigger] lists[j].contains(
                            keys[m],
                        );
                    assert(j < m) by {
                        if j == m {
                            assert(zl.contains(z));
                        }
                    }
                    assert(keys.take(m)[j] == y);
                    assert(keys.take(m).contains(y));
                }
            }
            lemma_no_dup_len(ind);
            lemma_no_dup_len(zl);
            assert(ind.to_set() =~= zl.to_set());
        }
    }
}

/// Returns true if `v` holds `x`.
pub(crate) fn contains_val(v: &Vec<usize>, x: usize) -> (r: bool)
    ensures
        r == v@.contains(x),
{
    let mut i: usize = 0;
    let len: usize = v.len();
    while i < len
        invariant
            len == v@.len(),
            i <= len,
            forall|j: int| 0 <= j < i ==> v@[j] != x,
        decreases len - i,
    {
        if v[i] == x {
            return true;
        }
        i = i + 1;
    }
    proof {
        if v@.contains(x) {
            let j = choose|j: int| 0 <= j < v@.len() && v@[j] == x;
            assert(v@[j] != x);
        }
    }
    false
}

/// Removes the first occurrence of `x` from `v`, if any.
fn remove_first_vec(v: &mut Vec<usize>, x: usize)
    ensures
        final(v)@ == Graph::remove_first_val(old(v)@, x),
{
    let mut i: usize = 0;
    let len: usize = v.len();
    while i < len
        invariant
            len == v@.len(),
            i <= len,
            v@ == old(v)@,
            forall|j: int| 0 <= j < i ==> v@[j] != x,
        decreases len - i,
    {
        if v[i] == x {
            proof {
                old(v)@.index_of_first_ensures(x);
                assert(old(v)@.contains(x));
                let k = old(v)@.index_of_first(x)->Some_0;
                if k < i {
                    assert(old(v)@[k] != x);
                }
                assert(k == i);
            }
            v.remove(i);
            return;
        }
        i = i + 1;
    }
    proof {
        if old(v)@.contains(x) {
            let j = choose|j: int| 0 <= j < old(v)@.len() && old(v)@[j] == x;
            assert(old(v)@[j] != x);
        }
        old(v)@.index_of_first_ensures(x);
    }
}

impl Default for Graph {
    /// The empty graph: no nodes, no edges, degree zero.
    fn default() -> (r: Graph)
        ensures
            r.wf(),
            r.deg() == 0,
            r.node_seq().len() == 0,
            forall|n: usize| r.adj(n) == Seq::<usize>::empty(),
    {
        let r = Graph { degree: 0, keys: Vec::new(), lists: Vec::new() };
        proof {
            assert forall|n: usize| r.adj(n) == Seq::<usize>::empty() by {
                r.keys@.index_of_first_ensures(n);
            }
        }
        r
    }
}

impl Clone for Graph {
    /// A clone carries the same nodes, the same neighbour lists and the
    /// same degree high-water mark.
    fn clone(&self) -> (r: Graph)
        ensures
            r.node_seq() == self.node_seq(),
            r.deg() == self.deg(),
            self.wf() ==> r.wf(),
            self.wf() ==> forall|n: usize| #[trigger] r.adj(n) == self.adj(n),
    {
        let keys = clone_usize_vec(&self.keys);
        let mut lists: Vec<Vec<usize>> = Vec::new();
        let mut i: usize = 0;
        let len: usize = self.lists.len();
        while i < len
            invariant
                len == self.lists@.len(),
                i <= len,
                lists@.len() == i,
                forall|j: int| 0 <= j < i ==> lists@[j]@ == self.lists@[j]@,
            decreases len - i,
        {
            lists.push(clone_usize_vec(&self.lists[i]));
            i = i + 1;
        }
        let r = Graph { degree: self.degree, keys, lists };
        proof {
            if self.wf() {
                assert forall|n: usize| #[trigger] r.adj(n) == self.adj(n) by {
                    assert(r.keys@ == self.keys@);
                    self.keys@.index_of_first_ensures(n);
                    match self.keys@.index_of_first(n) {
                        Some(i) => {
                            assert(0 <= i < self.lists@.len());
                            assert(r.lists@[i]@ == self.lists@[i]@);
                        },
                        None => {},
                    }
                }
            }
        }
        r
    }
}

/// Copies a vector of node identifiers.
fn clone_usize_vec(v: &Vec<usize>) -> (r: Vec<usize>)
    ensures
        r@ == v@,
{
    let mut r: Vec<usize> = Vec::new();
    let mut i: usize = 0;
    let len: usize = v.len();
    while i < len
        invariant
            len == v@.len(),
            i <= len,
            r@ == v@.take(i as int),
        decreases len - i,
    {
        r.push(v[i]);
        proof {
            assert(r@ =~= v@.take(i + 1));
        }
        i = i + 1;
    }
    proof {
        assert(r@ =~= v@);
    }
    r
}


/// Returns true if `v` holds the pair `p`.
fn contains_pair(v: &Vec<(usize, usize)>, p: (usize, usize)) -> (r: bool)
    ensures
        r == v@.contains(p),
{
    let mut i: usize = 0;
    let len: usize = v.len();
    while i < len
        invariant
            len == v@.len(),
            i <= len,
            forall|j: int| 0 <= j < i ==> v@[j] != p,
        decreases len - i,
    {
        let q = v[i];
        if q.0 == p.0 && q.1 == p.1 {
            proof {
                assert(v@[i as int] == p);
            }
            return true;
        }
        i = i + 1;
    }
    proof {
        if v@.contains(p) {
            let j = choose|j: int| 0 <= j < v@.len() && v@[j] == p;
            assert(v@[j] != p);
        }
    }
    false
}

impl PartialEq for Graph {
    /// Two graphs are equal when their stored fields coincide: same degree
    /// mark, same node identifiers in order, same neighbour lists.
    fn eq(&self, other: &Graph) -> (r: bool) {
        if self.degree != other.degree {
            return false;
        }
        if self.keys.len() != other.keys.len() {
            proof {
                assert(self.keys@ != other.keys@);
            }
            return false;
        }
        if self.lists.len() != other.lists.len() {
            proof {
                assert(self.lists@.map_values(|l: Vec<usize>| l@).len() != other.lists@.map_values(
                    |l: Vec<usize>| l@,
                ).len());
            }
            return false;
        }
        let klen: usize = self.keys.len();
        let mut i: usize = 0;
        while i < klen
            invariant
                klen == self.keys@.len(),
                klen == other.keys@.len(),
                i <= klen,
                forall|j: int| 0 <= j < i ==> self.keys@[j] == other.keys@[j],
            decreases klen - i,
        {
            if self.keys[i] != other.keys[i] {
                return false;
            }
            i = i + 1;
        }
        proof {
            assert(self.keys@ =~= other.keys@);
        }
        let llen: usize = self.lists.len();
        let mut i: usize = 0;
        while i < llen
            invariant
                llen == self.lists@.len(),
                llen == other.lists@.len(),
                i <= llen,
                forall|j: int| 0 <= j < i ==> self.lists@[j]@ == other.lists@[j]@,
            decreases llen - i,
        {
            let a = &self.lists[i];
            let b = &other.lists[i];
            if a.len() != b.len() {
                proof {
                    assert(self.lists@.map_values(|l: Vec<usize>| l@)[i as int] != other.lists@
                        .map_values(|l: Vec<usize>| l@)[i as int]);
                }
                return false;
            }
            let alen: usize = a.len();
            let mut k: usize = 0;
            while k < alen
                invariant
                    alen == a@.len(),
                    alen == b@.len(),
                    k <= alen,
                    a@ == self.lists@[i as int]@,
                    b@ == other.lists@[i as int]@,
                    i < llen,
                    llen == self.lists@.len(),
                    llen == other.lists@.len(),
                    forall|j: int| 0 <= j < k ==> a@[j] == b@[j],
                decreases alen - k,
            {
                if a[k] != b[k] {
                    proof {
                        assert(a@ != b@);
                        assert(self.lists@.map_values(|l: Vec<usize>| l@)[i as int] != other.lists@
                            .map_values(|l: Vec<usize>| l@)[i as int]);
                    }
                    return false;
                }
                k = k + 1;
            }
            proof {
                assert(a@ =~= b@);
            }
            i = i + 1;
        }
        proof {
            assert(self.lists@.map_values(|l: Vec<usize>| l@) =~= other.lists@.map_values(
                |l: Vec<usize>| l@,
            ));
        }
        true
    }
}

impl vstd::std_specs::cmp::PartialEqSpecImpl for Graph {
    open spec fn obeys_eq_spec() -> bool {
        true
    }

    open spec fn eq_spec(&self, other: &Graph) -> bool {
        self.same_rep(*other)
    }
}

} // verus!
