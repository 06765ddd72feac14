use vstd::prelude::*;
use vstd::utf8::encode_utf8;
use crate::json_text::{matches_at, same_text};

verus! {

/// The name of a child that matches any segment.
pub open spec fn wildcard() -> Seq<u8> {
    seq![0x2au8]
}

/// The routes as seen by proofs: each node's name (as UTF-8) and children.
pub struct RouteModel {
    pub names: Seq<Seq<u8>>,
    pub children: Seq<Seq<usize>>,
}

impl RouteModel {
    /// Children come after their parent, and no two children of one node
    /// share a name; the root is node 0.
    pub open spec fn wf(self) -> bool {
        &&& self.names.len() == self.children.len()
        &&& self.names.len() >= 1
        &&& forall|n: int, i: int|
            0 <= n < self.children.len() && 0 <= i < self.children[n].len() ==> n < #[trigger] self.children[n][i]
                < self.children.len()
        &&& forall|n: int, i: int, j: int|
            0 <= n < self.children.len() && 0 <= i < self.children[n].len() && 0 <= j < self.children[n].len()
                && self.names[#[trigger] self.children[n][i] as int] == self.names[#[trigger] self.children[n][j] as int]
                ==> self.children[n][i] == self.children[n][j]
    }

    pub open spec fn is_child_named(self, n: int, c: int, name: Seq<u8>) -> bool {
        &&& exists|i: int| 0 <= i < self.children[n].len() && self.children[n][i] == c
        &&& self.names[c] == name
    }

    /// The child of `n` that a segment leads to: the one of that name, else
    /// the wildcard child.
    pub open spec fn step(self, n: int, seg: Seq<u8>) -> Option<int> {
        if exists|c: int| self.is_child_named(n, c, seg) {
            Some(choose|c: int| self.is_child_named(n, c, seg))
        } else if exists|c: int| self.is_child_named(n, c, wildcard()) {
            Some(choose|c: int| self.is_child_named(n, c, wildcard()))
        } else {
            None
        }
    }

    /// Length of the segment that starts `p`.
    pub open spec fn segment_len(p: Seq<u8>) -> nat
        decreases p.len(),
    {
        if p.len() == 0 || p[0] == 0x2f {
            0
        } else {
            1 + Self::segment_len(p.drop_first())
        }
    }

    /// Where the path `p` leads from node `n`, segment by segment; empty
    /// segments are skipped.
    pub open spec fn walk(self, n: int, p: Seq<u8>) -> Option<int>
        decreases p.len(),
    {
        if p.len() == 0 {
            Some(n)
        } else if p[0] == 0x2f {
            self.walk(n, p.drop_first())
        } else {
            let k = Self::segment_len(p);
            if k == 0 || k > p.len() {
                None
            } else {
                match self.step(n, p.subrange(0, k as int)) {
                    None => None,
                    Some(c) => self.walk(c, p.subrange(k as int, p.len() as int)),
                }
            }
        }
    }

    /// Node `n` and then, child by child, everything under it: `fuel` bounds
    /// the depth.
    pub open spec fn visit(self, n: int, fuel: nat) -> Seq<usize>
        decreases fuel, 0nat,
    {
        if fuel == 0 || !(0 <= n < self.children.len()) {
            seq![n as usize]
        } else {
            seq![n as usize] + self.visit_all(self.children[n], (fuel - 1) as nat)
        }
    }

    pub open spec fn visit_all(self, cs: Seq<usize>, fuel: nat) -> Seq<usize>
        decreases fuel, cs.len() + 1,
    {
        if cs.len() == 0 {
            Seq::empty()
        } else {
            self.visit_all(cs.drop_last(), fuel) + self.visit(cs.last() as int, fuel)
        }
    }

    /// All nodes, each before its children, children left to right.
    pub open spec fn preorder(self) -> Seq<usize> {
        self.visit(0, self.names.len())
    }
}

/// Why a route could not be added.
#[derive(Debug, Clone, Copy, PartialEq, Eq, Structural)]
pub enum RouteError {
    NoSuchParent,
    DuplicateName,
}

pub struct RouteNode {
    name: String,
    children: Vec<usize>,
}

/// A tree of named routes, each addressed by its index; the root is 0.
pub struct RouteTree {
    nodes: Vec<RouteNode>,
}

impl RouteTree {
    pub closed spec fn view(&self) -> RouteModel {
        RouteModel {
            names: Seq::new(self.nodes@.len(), |i: int| encode_utf8(self.nodes@[i].name@)),
            children: Seq::new(self.nodes@.len(), |i: int| self.nodes@[i].children@),
        }
    }

    pub closed spec fn name_text(&self, n: int) -> Seq<char> {
        self.nodes@[n].name@
    }

    /// A tree of the root alone.
    pub fn new(root_name: &str) -> (r: Self)
        ensures
            r.view().wf(),
            r.view().names == seq![encode_utf8(root_name@)],
            r.view().children == seq![Seq::<usize>::empty()],
    {
        let mut nodes: Vec<RouteNode> = Vec::new();
        nodes.push(RouteNode { name: root_name.to_string(), children: Vec::new() });
        let r = RouteTree { nodes };
        assert(r.view().names =~= seq![encode_utf8(root_name@)]);
        assert(r.view().children =~= seq![Seq::<usize>::empty()]);
        r
    }

    pub fn len(&self) -> (r: usize)
        ensures
            r == self.view().names.len(),
    {
        self.nodes.len()
    }

    /// The name of node `n`.
    pub fn name(&self, n: usize) -> (r: &str)
        requires
            n < self.view().names.len(),
        ensures
            encode_utf8(r@) == self.view().names[n as int],
    {
        self.nodes[n].name.as_str()
    }

    /// Adds a route `name` under `parent`; gives its index.
    pub fn add_child(&mut self, parent: usize, name: &str) -> (r: Result<usize, RouteError>)
        requires
            old(self).view().wf(),
        ensures
            final(self).view().wf(),
            match r {
                Ok(c) => {
                    &&& c == old(self).view().names.len()
                    &&& final(self).view().names == old(self).view().names.push(encode_utf8(name@))
                    &&& final(self).view().children == old(self).view().children.push(Seq::empty()).update(
                        parent as int,
                        old(self).view().children[parent as int].push(c),
                    )
                },
                Err(e) => {
                    &&& *final(self) == *old(self)
                    &&& e == RouteError::NoSuchParent <==> parent >= old(self).view().names.len()
                    &&& e == RouteError::DuplicateName ==> exists|c: int|
                        old(self).view().is_child_named(parent as int, c, encode_utf8(name@))
                },
            },
            r is Err ==> (parent >= old(self).view().names.len() || exists|c: int|
                old(self).view().is_child_named(parent as int, c, encode_utf8(name@))),
            r is Ok ==> parent < old(self).view().names.len() && !exists|c: int|
                old(self).view().is_child_named(parent as int, c, encode_utf8(name@)),
    {
        if parent >= self.nodes.len() {
            return Err(RouteError::NoSuchParent);
        }
        let ghost m = self.view();
        let mut i: usize = 0;
        while i < self.nodes[parent].children.len()
            invariant
                m == self.view(),
                m.wf(),
                parent < m.names.len(),
                i <= m.children[parent as int].len(),
                forall|j: int| 0 <= j < i ==> m.names[#[trigger] m.children[parent as int][j] as int] != encode_utf8(name@),
            decreases m.children[parent as int].len() - i,
        {
            let c = self.nodes[parent].children[i];
            assert(c == m.children[parent as int][i as int]);
            if same_text(self.nodes[c].name.as_str(), name) {
                assert(m.is_child_named(parent as int, c as int, encode_utf8(name@)));
                return Err(RouteError::DuplicateName);
            }
            proof {
                if m.names[c as int] == encode_utf8(name@) {
                    crate::json_text::lemma_encode_utf8_injective(self.nodes@[c as int].name@, name@);
                }
            }
            i = i + 1;
        }
        let c = self.nodes.len();
        self.nodes.push(RouteNode { name: name.to_string(), children: Vec::new() });
        let mut node = self.nodes.remove(parent);
        node.children.push(c);
        self.nodes.insert(parent, node);
        proof {
            let m2 = self.view();
            assert(m2.names =~= m.names.push(encode_utf8(name@)));
            assert(m2.children =~= m.children.push(Seq::empty()).update(parent as int, m.children[parent as int].push(c)));
        }
        Ok(c)
    }

    /// The node that `path` leads to from the root, if any.
    pub fn match_route(&self, path: &str) -> (r: Option<usize>)
        requires
            self.view().wf(),
        ensures
            r == (match self.view().walk(0, encode_utf8(path@)) {
                Some(n) => Some(n as usize),
                None => None,
            }),
    {
        let ghost m = self.view();
        let p = path.as_bytes();
        let mut cur: usize = 0;
        let mut i: usize = 0;
        assert(p@.subrange(0, p@.len() as int) =~= p@);
        while i < p.len()
            invariant
                m == self.view(),
                m.wf(),
                p@ == encode_utf8(path@),
                i <= p@.len(),
                cur < m.names.len(),
                m.walk(0, p@) == m.walk(cur as int, p@.subrange(i as int, p@.len() as int)),
            decreases p@.len() - i,
        {
            let ghost rest = p@.subrange(i as int, p@.len() as int);
            if p[i] == 0x2f {
                assert(rest.drop_first() =~= p@.subrange(i + 1, p@.len() as int));
                i = i + 1;
            } else {
                assert(RouteModel::segment_len(rest) == 1 + RouteModel::segment_len(rest.drop_first()));
                let mut j: usize = i;
                while j < p.len() && p[j] != 0x2f
                    invariant
                        m == self.view(),
                        p@ == encode_utf8(path@),
                        i <= j <= p@.len(),
                        RouteModel::segment_len(rest) == (j - i) + RouteModel::segment_len(p@.subrange(j as int, p@.len() as int)),
                    decreases p@.len() - j,
                {
                    assert(p@.subrange(j as int, p@.len() as int).drop_first() =~= p@.subrange(j + 1, p@.len() as int));
                    j = j + 1;
                }
                assert(RouteModel::segment_len(p@.subrange(j as int, p@.len() as int)) == 0);
                assert(rest.subrange(0, j - i) =~= p@.subrange(i as int, j as int));
                assert(rest.subrange(j - i, rest.len() as int) =~= p@.subrange(j as int, p@.len() as int));
                match self.child_for(cur, p, i, j) {
                    Some(c) => {
                        assert(RouteModel::segment_len(rest) == j - i);
                        assert(m.walk(cur as int, rest) == m.walk(c as int, p@.subrange(j as int, p@.len() as int)));
                        cur = c;
                        i = j;
                    },
                    None => {
                        assert(RouteModel::segment_len(rest) == j - i);
                        assert(m.step(cur as int, rest.subrange(0, (j - i) as int)) is None);
                        assert(m.walk(cur as int, rest) is None);
                        return None;
                    },
                }
            }
        }
        assert(p@.subrange(i as int, p@.len() as int).len() == 0);
        Some(cur)
    }

    fn visit_into(&self, n: usize, fuel: usize, out: &mut Vec<usize>)
        requires
            self.view().wf(),
            n < self.view().names.len(),
        ensures
            final(out)@ == old(out)@ + self.view().visit(n as int, fuel as nat),
        decreases fuel,
    {
        let ghost m = self.view();
        out.push(n);
        if fuel == 0 {
            return;
        }
        let children = &self.nodes[n].children;
        let mut i: usize = 0;
        assert(children@.take(0) =~= Seq::<usize>::empty());
        while i < children.len()
            invariant
                m == self.view(),
                m.wf(),
                n < m.names.len(),
                fuel > 0,
                children@ == m.children[n as int],
                i <= children@.len(),
                out@ == old(out)@ + seq![n] + m.visit_all(children@.take(i as int), (fuel - 1) as nat),
            decreases children@.len() - i,
        {
            let c = children[i];
            assert(m.children[n as int][i as int] == c);
            self.visit_into(c, fuel - 1, out);
            assert(children@.take(i + 1).drop_last() =~= children@.take(i as int));
            i = i + 1;
        }
        assert(children@.take(i as int) =~= children@);
        assert(out@ =~= old(out)@ + m.visit(n as int, fuel as nat));
    }

    /// Every node, each before its children, children left to right.
    pub fn preorder(&self) -> (r: Vec<usize>)
        requires
            self.view().wf(),
        ensures
            r@ == self.view().preorder(),
    {
        let mut out: Vec<usize> = Vec::new();
        self.visit_into(0, self.nodes.len(), &mut out);
        assert(out@ =~= self.view().preorder());
        out
    }

    /// The child of `n` that the segment `p[start..end]` leads to.
    fn child_for(&self, n: usize, p: &[u8], start: usize, end: usize) -> (r: Option<usize>)
        requires
            self.view().wf(),
            n < self.view().names.len(),
            start <= end <= p@.len(),
        ensures
            r == (match self.view().step(n as int, p@.subrange(start as int, end as int)) {
                Some(c) => Some(c as usize),
                None => None,
            }),
            r matches Some(c) ==> c < self.view().names.len(),
    {
        let ghost m = self.view();
        let ghost seg = p@.subrange(start as int, end as int);
        let children = &self.nodes[n].children;
        let mut wild: Option<usize> = None;
        let mut i: usize = 0;
        while i < children.len()
            invariant
                m == self.view(),
                m.wf(),
                n < m.names.len(),
                start <= end <= p@.len(),
                seg == p@.subrange(start as int, end as int),
                children@ == m.children[n as int],
                i <= children@.len(),
                forall|j: int| 0 <= j < i ==> m.names[#[trigger] children@[j] as int] != seg,
                match wild {
                    Some(w) => m.is_child_named(n as int, w as int, wildcard()) && w < m.names.len(),
                    None => forall|j: int| 0 <= j < i ==> m.names[#[trigger] children@[j] as int] != wildcard(),
                },
            decreases children@.len() - i,
        {
            let c = children[i];
            assert(m.children[n as int][i as int] == c);
            let name = self.nodes[c].name.as_str().as_bytes();
            assert(c < m.names.len());
            assert(m.names[c as int] == name@);
            if name.len() == end - start && matches_at(p, start, name) {
                assert(m.names[c as int] =~= seg);
                assert(m.is_child_named(n as int, c as int, seg));
                proof {
                    let k = choose|k: int| m.is_child_named(n as int, k, seg);
                    let ik = choose|ik: int| 0 <= ik < m.children[n as int].len() && m.children[n as int][ik] == k;
                    assert(m.names[m.children[n as int][ik] as int] == m.names[m.children[n as int][i as int] as int]);
                }
                return Some(c);
            }
            if name.len() == 1 && name[0] == 0x2a {
                assert(m.names[c as int] =~= wildcard());
                wild = Some(c);
            } else {
                assert(m.names[c as int] != wildcard());
            }
            i = i + 1;
        }
        proof {
            assert forall|k: int| !m.is_child_named(n as int, k, seg) by {
                if m.is_child_named(n as int, k, seg) {
                    let ik = choose|ik: int| 0 <= ik < m.children[n as int].len() && m.children[n as int][ik] == k;
                    assert(m.names[children@[ik] as int] != seg);
                }
            }
            match wild {
                Some(w) => {
                    let k = choose|k: int| m.is_child_named(n as int, k, wildcard());
                    let ik = choose|ik: int| 0 <= ik < m.children[n as int].len() && m.children[n as int][ik] == k;
                    let iw = choose|iw: int| 0 <= iw < m.children[n as int].len() && m.children[n as int][iw] == w;
                    assert(m.names[m.children[n as int][ik] as int] == m.names[m.children[n as int][iw] as int]);
                },
                None => {
                    assert forall|k: int| !m.is_child_named(n as int, k, wildcard()) by {
                        if m.is_child_named(n as int, k, wildcard()) {
                            let ik = choose|ik: int| 0 <= ik < m.children[n as int].len() && m.children[n as int][ik] == k;
                            assert(m.names[children@[ik] as int] != wildcard());
                        }
                    }
                },
            }
        }
        wild
    }
}

/// A run of lifecycle hooks over a route tree, one node at a time in
/// pre-order; the first failure stops it.
pub struct Lifecycle {
    order: Vec<usize>,
    done: usize,
    failed: bool,
}

impl Lifecycle {
    /// The nodes whose hooks run, in order.
    pub closed spec fn order(&self) -> Seq<usize> {
        self.order@
    }

    /// How many hooks have succeeded.
    pub closed spec fn done(&self) -> nat {
        self.done as nat
    }

    /// Whether a hook has failed.
    pub closed spec fn failed(&self) -> bool {
        self.failed
    }

    pub open spec fn wf(&self) -> bool {
        self.done() <= self.order().len()
    }

    /// The node whose hook runs next: none once every hook has run or one
    /// has failed.
    pub open spec fn next_spec(&self) -> Option<usize> {
        if self.failed() || self.done() >= self.order().len() {
            None
        } else {
            Some(self.order()[self.done() as int])
        }
    }

    /// A run over the whole tree.
    pub fn start(tree: &RouteTree) -> (r: Self)
        requires
            tree.view().wf(),
        ensures
            r.wf(),
            r.order() == tree.view().preorder(),
            r.done() == 0,
            !r.failed(),
    {
        Lifecycle { order: tree.preorder(), done: 0, failed: false }
    }

    pub fn next_hook(&self) -> (r: Option<usize>)
        requires
            self.wf(),
        ensures
            r == self.next_spec(),
    {
        if self.failed || self.done >= self.order.len() {
            None
        } else {
            Some(self.order[self.done])
        }
    }

    /// Records how the hook of the node `next_hook` gave ended.
    pub fn report(&mut self, ok: bool)
        requires
            old(self).wf(),
            old(self).next_spec() is Some,
        ensures
            final(self).wf(),
            final(self).order() == old(self).order(),
            ok ==> final(self).done() == old(self).done() + 1 && !final(self).failed(),
            !ok ==> final(self).done() == old(self).done() && final(self).failed(),
    {
        if ok {
            let n = self.order.len();
            assert(self.done < n);
            self.done = self.done + 1;
        } else {
            self.failed = true;
        }
    }

    /// `Some(true)` when every hook succeeded, `Some(false)` after a failure,
    /// `None` while hooks remain.
    pub fn outcome(&self) -> (r: Option<bool>)
        requires
            self.wf(),
        ensures
            r == (if self.failed() {
                Some(false)
            } else if self.done() == self.order().len() {
                Some(true)
            } else {
                None::<bool>
            }),
    {
        if self.failed {
            Some(false)
        } else if self.done == self.order.len() {
            Some(true)
        } else {
            None
        }
    }
}

/// The run of `up` hooks that brings a tree up.
pub fn up_all(root: &RouteTree) -> (r: Lifecycle)
    requires
        root.view().wf(),
    ensures
        r.wf(),
        r.order() == root.view().preorder(),
        r.done() == 0,
        !r.failed(),
{
    Lifecycle::start(root)
}

/// The run of `down` hooks that takes a tree down.
pub fn down_all(root: &RouteTree) -> (r: Lifecycle)
    requires
        root.view().wf(),
    ensures
        r.wf(),
        r.order() == root.view().preorder(),
        r.done() == 0,
        !r.failed(),
{
    Lifecycle::start(root)
}

/// The node that `path` leads to from the root of `root`, if any.
pub fn match_route(path: &str, root: &RouteTree) -> (r: Option<usize>)
    requires
        root.view().wf(),
    ensures
        r == (match root.view().walk(0, encode_utf8(path@)) {
            Some(n) => Some(n as usize),
            None => None,
        }),
{
    root.match_route(path)
}

} // verus!
