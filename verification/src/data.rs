//! The namespace trie: a tree of nodes keyed by dotted-path segments, with
//! children kept in ascending lexicographic order of their segment names.

use vstd::prelude::*;
use crate::paths::{
    dotted, lex_lt, lemma_lex_connex, lemma_lex_irrefl, lemma_lex_trans, seg_views, split_dotted,
    split_path, join_dotted, str_lt,
};

verus! {

broadcast use vstd::std_specs::vec::group_vec_axioms, vstd::seq::group_seq_axioms;

/// The mathematical shape of a trie node: its segment name, its full dotted
/// path, its optional payload, and its children in order.
#[verifier::ext_equal]
pub ghost struct NodeModel<T> {
    pub name: Seq<char>,
    pub path: Seq<char>,
    pub value: Option<T>,
    pub children: Seq<NodeModel<T>>,
}

/// Children stand in strictly ascending lexicographic order of their names.
pub open spec fn kids_sorted<T>(ks: Seq<NodeModel<T>>) -> bool {
    forall|i: int| 0 <= i && i + 1 < ks.len() ==> lex_lt(#[trigger] ks[i].name, ks[i + 1].name)
}

/// The first child with the given segment name.
pub open spec fn kids_get<T>(ks: Seq<NodeModel<T>>, name: Seq<char>) -> Option<NodeModel<T>>
    decreases ks.len(),
{
    if ks.len() == 0 {
        None
    } else if ks[0].name == name {
        Some(ks[0])
    } else {
        kids_get(ks.subrange(1, ks.len() as int), name)
    }
}

/// How many leading children are ordered strictly before `name`; under
/// `kids_sorted` this is where a child of that name stands or belongs.
pub open spec fn kids_pos<T>(ks: Seq<NodeModel<T>>, name: Seq<char>) -> int
    decreases ks.len(),
{
    if ks.len() == 0 {
        0
    } else if lex_lt(ks[0].name, name) {
        1 + kids_pos(ks.subrange(1, ks.len() as int), name)
    } else {
        0
    }
}

pub proof fn lemma_kids_pos_bounds<T>(ks: Seq<NodeModel<T>>, name: Seq<char>)
    ensures
        0 <= kids_pos(ks, name) <= ks.len(),
        forall|k: int| 0 <= k < kids_pos(ks, name) ==> lex_lt(ks[k].name, name),
        kids_pos(ks, name) < ks.len() ==> !lex_lt(ks[kids_pos(ks, name)].name, name),
    decreases ks.len(),
{
    if ks.len() > 0 && lex_lt(ks[0].name, name) {
        let ks1 = ks.subrange(1, ks.len() as int);
        lemma_kids_pos_bounds(ks1, name);
        assert forall|k: int| 0 <= k < kids_pos(ks, name) implies lex_lt(ks[k].name, name) by {
            if k >= 1 {
                assert(ks1[k - 1] == ks[k]);
            }
        }
        if kids_pos(ks, name) < ks.len() {
            assert(ks1[kids_pos(ks1, name)] == ks[kids_pos(ks, name)]);
        }
    }
}

/// A scan pins `kids_pos` down: if everything before `p` is ordered below
/// `name` and position `p` (if any) is not, the position is `p`.
pub proof fn lemma_kids_pos_from_scan<T>(ks: Seq<NodeModel<T>>, name: Seq<char>, p: int)
    requires
        0 <= p <= ks.len(),
        forall|k: int| 0 <= k < p ==> lex_lt(ks[k].name, name),
        p < ks.len() ==> !lex_lt(ks[p].name, name),
    ensures
        kids_pos(ks, name) == p,
    decreases p,
{
    if p > 0 {
        let ks1 = ks.subrange(1, ks.len() as int);
        assert forall|k: int| 0 <= k < p - 1 implies lex_lt(ks1[k].name, name) by {
            assert(ks1[k] == ks[k + 1]);
        }
        if p - 1 < ks1.len() {
            assert(ks1[p - 1] == ks[p]);
        }
        lemma_kids_pos_from_scan(ks1, name, p - 1);
    }
}

/// Any earlier child's name is ordered below any later one's.
pub proof fn lemma_sorted_chain<T>(ks: Seq<NodeModel<T>>, i: int, j: int)
    requires
        kids_sorted(ks),
        0 <= i < j < ks.len(),
    ensures
        lex_lt(ks[i].name, ks[j].name),
    decreases j - i,
{
    if j == i + 1 {
    } else {
        lemma_sorted_chain(ks, i, j - 1);
        lemma_lex_trans(ks[i].name, ks[j - 1].name, ks[j].name);
    }
}

/// Sorted children are pairwise ordered, hence their names are distinct.
pub proof fn lemma_sorted_pairwise<T>(ks: Seq<NodeModel<T>>)
    requires
        kids_sorted(ks),
    ensures
        forall|i: int, j: int| 0 <= i < j < ks.len() ==> lex_lt(ks[i].name, ks[j].name),
        forall|i: int, j: int| 0 <= i < j < ks.len() ==> ks[i].name != ks[j].name,
{
    assert forall|i: int, j: int| 0 <= i < j < ks.len() implies lex_lt(ks[i].name, ks[j].name) by {
        lemma_sorted_chain(ks, i, j);
    }
    assert forall|i: int, j: int| 0 <= i < j < ks.len() implies ks[i].name != ks[j].name by {
        lemma_sorted_chain(ks, i, j);
        if ks[i].name == ks[j].name {
            lemma_lex_irrefl(ks[i].name);
        }
    }
}

/// In sorted children, `kids_get` finds a child if and only if some child
/// carries that name, and then it is that very child.
pub proof fn lemma_kids_get_some_iff<T>(ks: Seq<NodeModel<T>>, name: Seq<char>)
    ensures
        kids_get(ks, name) is Some ==> {
            let c = kids_get(ks, name)->Some_0;
            exists|k: int| 0 <= k < ks.len() && ks[k] == c && ks[k].name == name
        },
        (exists|k: int| 0 <= k < ks.len() && ks[k].name == name) ==> kids_get(ks, name) is Some,
    decreases ks.len(),
{
    if ks.len() > 0 && ks[0].name != name {
        let ks1 = ks.subrange(1, ks.len() as int);
        lemma_kids_get_some_iff(ks1, name);
        if kids_get(ks, name) is Some {
            let c = kids_get(ks, name)->Some_0;
            let k = choose|k: int| 0 <= k < ks1.len() && ks1[k] == c && ks1[k].name == name;
            assert(ks[k + 1] == ks1[k]);
        }
        if exists|k: int| 0 <= k < ks.len() && ks[k].name == name {
            let k = choose|k: int| 0 <= k < ks.len() && ks[k].name == name;
            assert(k >= 1 && ks1[k - 1] == ks[k]);
        }
    }
}

/// A scan that saw no match so far: the first match, if any, lies at the scan
/// point or later.
pub proof fn lemma_kids_get_scan<T>(ks: Seq<NodeModel<T>>, name: Seq<char>, p: int)
    requires
        0 <= p <= ks.len(),
        forall|k: int| 0 <= k < p ==> ks[k].name != name,
    ensures
        p < ks.len() && ks[p].name == name ==> kids_get(ks, name) == Some(ks[p]),
        p == ks.len() ==> kids_get(ks, name) is None,
    decreases p,
{
    if p > 0 {
        let ks1 = ks.subrange(1, ks.len() as int);
        assert forall|k: int| 0 <= k < p - 1 implies ks1[k].name != name by {
            assert(ks1[k] == ks[k + 1]);
        }
        lemma_kids_get_scan(ks1, name, p - 1);
        if p < ks.len() && ks[p].name == name {
            assert(ks1[p - 1] == ks[p]);
        }
    }
}

/// Replacing a child by one of the same name keeps the order.
pub proof fn lemma_sorted_update<T>(ks: Seq<NodeModel<T>>, j: int, c: NodeModel<T>)
    requires
        kids_sorted(ks),
        0 <= j < ks.len(),
        c.name == ks[j].name,
    ensures
        kids_sorted(ks.update(j, c)),
{
    let ks2 = ks.update(j, c);
    assert forall|i: int| 0 <= i && i + 1 < ks2.len() implies lex_lt(
        #[trigger] ks2[i].name,
        ks2[i + 1].name,
    ) by {
        assert(lex_lt(ks[i].name, ks[i + 1].name));
    }
}

/// Inserting a child of a fresh name at its position keeps the order.
pub proof fn lemma_sorted_insert<T>(ks: Seq<NodeModel<T>>, name: Seq<char>, c: NodeModel<T>)
    requires
        kids_sorted(ks),
        c.name == name,
        kids_pos(ks, name) < ks.len() ==> ks[kids_pos(ks, name)].name != name,
    ensures
        kids_sorted(ks.insert(kids_pos(ks, name), c)),
{
    let j = kids_pos(ks, name);
    lemma_kids_pos_bounds(ks, name);
    let ks2 = ks.insert(j, c);
    assert forall|i: int| 0 <= i && i + 1 < ks2.len() implies lex_lt(
        #[trigger] ks2[i].name,
        ks2[i + 1].name,
    ) by {
        if i + 1 < j {
            assert(ks2[i] == ks[i] && ks2[i + 1] == ks[i + 1]);
        } else if i + 1 == j {
            assert(ks2[i] == ks[i] && ks2[i + 1] == c);
        } else if i == j {
            assert(ks2[i] == c && ks2[i + 1] == ks[i]);
            lemma_lex_connex(c.name, ks[i].name);
        } else {
            assert(ks2[i] == ks[i - 1] && ks2[i + 1] == ks[i]);
        }
    }
}

/// Replacing a child by one of the same name is invisible to lookups of any
/// other name.
pub proof fn lemma_kids_get_update_other<T>(
    ks: Seq<NodeModel<T>>,
    j: int,
    c: NodeModel<T>,
    q: Seq<char>,
)
    requires
        0 <= j < ks.len(),
        c.name == ks[j].name,
        c.name != q,
    ensures
        kids_get(ks.update(j, c), q) == kids_get(ks, q),
    decreases ks.len(),
{
    let ks2 = ks.update(j, c);
    if ks.len() > 0 {
        if j == 0 {
            assert(ks2.subrange(1, ks2.len() as int) =~= ks.subrange(1, ks.len() as int));
        } else {
            assert(ks2[0] == ks[0]);
            if ks[0].name != q {
                assert(ks2.subrange(1, ks2.len() as int) =~= ks.subrange(1, ks.len() as int)
                    .update(j - 1, c));
                lemma_kids_get_update_other(ks.subrange(1, ks.len() as int), j - 1, c, q);
            }
        }
    }
}

/// Inserting a child of a fresh name is invisible to lookups of any other
/// name.
pub proof fn lemma_kids_get_insert_other<T>(
    ks: Seq<NodeModel<T>>,
    j: int,
    c: NodeModel<T>,
    q: Seq<char>,
)
    requires
        0 <= j <= ks.len(),
        c.name != q,
    ensures
        kids_get(ks.insert(j, c), q) == kids_get(ks, q),
    decreases ks.len(),
{
    let ks2 = ks.insert(j, c);
    if j == 0 {
        assert(ks2[0] == c);
        assert(ks2.subrange(1, ks2.len() as int) =~= ks);
    } else {
        assert(ks2[0] == ks[0]);
        if ks[0].name != q {
            assert(ks2.subrange(1, ks2.len() as int) =~= ks.subrange(1, ks.len() as int).insert(
                j - 1,
                c,
            ));
            lemma_kids_get_insert_other(ks.subrange(1, ks.len() as int), j - 1, c, q);
        }
    }
}

/// Sequences with equal heads and equal tails are equal.
pub proof fn lemma_seq_head_tail<A>(a: Seq<A>, b: Seq<A>)
    requires
        a.len() > 0,
        b.len() > 0,
        a[0] == b[0],
        a.subrange(1, a.len() as int) == b.subrange(1, b.len() as int),
    ensures
        a == b,
{
    assert(a.subrange(1, a.len() as int).len() == a.len() - 1);
    assert(b.subrange(1, b.len() as int).len() == b.len() - 1);
    assert forall|i: int| 0 <= i < a.len() implies a[i] == b[i] by {
        if i >= 1 {
            assert(a.subrange(1, a.len() as int)[i - 1] == a[i]);
            assert(b.subrange(1, b.len() as int)[i - 1] == b[i]);
        }
    }
    assert(a =~= b);
}

impl<T> NodeModel<T> {
    /// Well-formed: children ordered by name, each child's path the parent's
    /// path extended by its own name, and each child well-formed in turn.
    pub open spec fn wf(self) -> bool
        decreases self,
    {
        &&& kids_sorted(self.children)
        &&& forall|i: int|
            0 <= i < self.children.len() ==> {
                &&& (#[trigger] self.children[i]).path == dotted(self.path, self.children[i].name)
                &&& self.children[i].wf()
            }
    }

    /// The node at the given segment path, if every segment exists.
    pub open spec fn get(self, path: Seq<Seq<char>>) -> Option<NodeModel<T>>
        decreases path.len(),
    {
        if path.len() == 0 {
            Some(self)
        } else {
            match kids_get(self.children, path[0]) {
                Some(c) => c.get(path.subrange(1, path.len() as int)),
                None => None,
            }
        }
    }

    /// The payload stored at the given segment path: absent when the path
    /// does not exist or its node carries no payload.
    pub open spec fn value_at(self, path: Seq<Seq<char>>) -> Option<T> {
        match self.get(path) {
            Some(n) => n.value,
            None => None,
        }
    }

    /// A new intermediate child: no payload, no children.
    pub open spec fn fresh_child(self, name: Seq<char>) -> NodeModel<T> {
        NodeModel { name, path: dotted(self.path, name), value: None, children: Seq::empty() }
    }

    /// Insertion: walk the segments, creating missing intermediate nodes, and
    /// set the payload of the final node, keeping everything else.
    pub open spec fn ins(self, path: Seq<Seq<char>>, value: Option<T>) -> NodeModel<T>
        decreases path.len(),
    {
        if path.len() == 0 {
            NodeModel { value, ..self }
        } else {
            let name = path[0];
            let rest = path.subrange(1, path.len() as int);
            let j = kids_pos(self.children, name);
            if j < self.children.len() && self.children[j].name == name {
                NodeModel {
                    children: self.children.update(j, self.children[j].ins(rest, value)),
                    ..self
                }
            } else {
                NodeModel {
                    children: self.children.insert(j, self.fresh_child(name).ins(rest, value)),
                    ..self
                }
            }
        }
    }
}

/// Insertion never renames or moves the node it starts from.
pub proof fn lemma_ins_keeps_id<T>(n: NodeModel<T>, path: Seq<Seq<char>>, value: Option<T>)
    ensures
        n.ins(path, value).name == n.name,
        n.ins(path, value).path == n.path,
        path.len() > 0 ==> n.ins(path, value).value == n.value,
{
}

/// Insertion preserves well-formedness.
pub proof fn lemma_ins_wf<T>(n: NodeModel<T>, path: Seq<Seq<char>>, value: Option<T>)
    requires
        n.wf(),
    ensures
        n.ins(path, value).wf(),
    decreases path.len(),
{
    let m = n.ins(path, value);
    if path.len() == 0 {
        assert forall|i: int| 0 <= i < m.children.len() implies (#[trigger] m.children[i]).path
            == dotted(m.path, m.children[i].name) && m.children[i].wf() by {
            assert(n.children[i].wf());
        }
    } else {
        let name = path[0];
        let rest = path.subrange(1, path.len() as int);
        let ks = n.children;
        let j = kids_pos(ks, name);
        lemma_kids_pos_bounds(ks, name);
        if j < ks.len() && ks[j].name == name {
            let c = ks[j];
            assert(c.wf());
            lemma_ins_wf(c, rest, value);
            lemma_ins_keeps_id(c, rest, value);
            let c2 = c.ins(rest, value);
            lemma_sorted_update(ks, j, c2);
            assert(m.children == ks.update(j, c2));
            assert forall|i: int| 0 <= i < m.children.len() implies (#[trigger] m.children[i]).path
                == dotted(m.path, m.children[i].name) && m.children[i].wf() by {
                if i != j {
                    assert(m.children[i] == ks[i]);
                    assert(ks[i].wf());
                }
            }
        } else {
            let f = n.fresh_child(name);
            assert(f.wf());
            lemma_ins_wf(f, rest, value);
            lemma_ins_keeps_id(f, rest, value);
            let c2 = f.ins(rest, value);
            lemma_sorted_insert(ks, name, c2);
            assert(m.children == ks.insert(j, c2));
            assert forall|i: int| 0 <= i < m.children.len() implies (#[trigger] m.children[i]).path
                == dotted(m.path, m.children[i].name) && m.children[i].wf() by {
                if i < j {
                    assert(m.children[i] == ks[i]);
                    assert(ks[i].wf());
                } else if i == j {
                    assert(m.children[i] == c2);
                } else {
                    assert(m.children[i] == ks[i - 1]);
                    assert(ks[i - 1].wf());
                }
            }
        }
    }
}

/// After inserting at `path`, the node at `path` exists and carries the new
/// payload.
pub proof fn lemma_ins_get_same<T>(n: NodeModel<T>, path: Seq<Seq<char>>, value: Option<T>)
    requires
        n.wf(),
    ensures
        n.ins(path, value).get(path) is Some,
        n.ins(path, value).value_at(path) == value,
    decreases path.len(),
{
    let m = n.ins(path, value);
    if path.len() == 0 {
    } else {
        let name = path[0];
        let rest = path.subrange(1, path.len() as int);
        let ks = n.children;
        let j = kids_pos(ks, name);
        lemma_kids_pos_bounds(ks, name);
        assert forall|k: int| 0 <= k < j implies m.children[k].name != name by {
            crate::paths::lemma_lex_neq(ks[k].name, name);
            assert(m.children[k] == ks[k]);
        }
        if j < ks.len() && ks[j].name == name {
            let c = ks[j];
            let c2 = c.ins(rest, value);
            lemma_ins_keeps_id(c, rest, value);
            assert(m.children == ks.update(j, c2));
            lemma_kids_get_scan(m.children, name, j);
            assert(kids_get(m.children, name) == Some(c2));
            lemma_ins_get_same(c, rest, value);
        } else {
            let f = n.fresh_child(name);
            let c2 = f.ins(rest, value);
            lemma_ins_keeps_id(f, rest, value);
            assert(m.children == ks.insert(j, c2));
            assert(m.children[j] == c2);
            lemma_kids_get_scan(m.children, name, j);
            assert(kids_get(m.children, name) == Some(c2));
            assert(f.wf());
            lemma_ins_get_same(f, rest, value);
        }
    }
}

/// Inserting at one path leaves the payload at every other path untouched.
pub proof fn lemma_ins_value_at_other<T>(
    n: NodeModel<T>,
    p: Seq<Seq<char>>,
    value: Option<T>,
    q: Seq<Seq<char>>,
)
    requires
        n.wf(),
        p != q,
    ensures
        n.ins(p, value).value_at(q) == n.value_at(q),
    decreases p.len(),
{
    let m = n.ins(p, value);
    if p.len() == 0 {
        assert(q.len() > 0) by {
            if q.len() == 0 {
                assert(p =~= q);
            }
        }
        assert(m.children == n.children);
    } else if q.len() == 0 {
        lemma_ins_keeps_id(n, p, value);
    } else {
        let name = p[0];
        let prest = p.subrange(1, p.len() as int);
        let qrest = q.subrange(1, q.len() as int);
        let ks = n.children;
        let j = kids_pos(ks, name);
        lemma_kids_pos_bounds(ks, name);
        if j < ks.len() && ks[j].name == name {
            let c = ks[j];
            let c2 = c.ins(prest, value);
            lemma_ins_keeps_id(c, prest, value);
            assert(m.children == ks.update(j, c2));
            if q[0] != name {
                lemma_kids_get_update_other(ks, j, c2, q[0]);
                assert(kids_get(m.children, q[0]) == kids_get(ks, q[0]));
            } else {
                if prest == qrest {
                    lemma_seq_head_tail(p, q);
                }
                assert forall|k: int| 0 <= k < j implies ks[k].name != name by {
                    crate::paths::lemma_lex_neq(ks[k].name, name);
                }
                lemma_kids_get_scan(ks, name, j);
                assert(kids_get(ks, q[0]) == Some(c));
                assert forall|k: int| 0 <= k < j implies m.children[k].name != name by {
                    assert(m.children[k] == ks[k]);
                    crate::paths::lemma_lex_neq(ks[k].name, name);
                }
                lemma_kids_get_scan(m.children, name, j);
                assert(kids_get(m.children, q[0]) == Some(c2));
                assert(c.wf());
                lemma_ins_value_at_other(c, prest, value, qrest);
            }
        } else {
            let f = n.fresh_child(name);
            let c2 = f.ins(prest, value);
            lemma_ins_keeps_id(f, prest, value);
            assert(m.children == ks.insert(j, c2));
            if q[0] != name {
                lemma_kids_get_insert_other(ks, j, c2, q[0]);
                assert(kids_get(m.children, q[0]) == kids_get(ks, q[0]));
            } else {
                if prest == qrest {
                    lemma_seq_head_tail(p, q);
                }
                if kids_get(ks, name) is Some {
                    lemma_kids_get_some_iff(ks, name);
                    let k = choose|k: int|
                        0 <= k < ks.len() && ks[k] == kids_get(ks, name)->Some_0 && ks[k].name
                            == name;
                    lemma_sorted_pairwise(ks);
                    if k < j {
                        crate::paths::lemma_lex_neq(ks[k].name, name);
                    } else if k > j {
                        assert(!lex_lt(ks[j].name, name));
                        lemma_lex_connex(ks[j].name, name);
                        assert(lex_lt(name, ks[j].name));
                        lemma_sorted_chain(ks, j, k);
                        lemma_lex_trans(name, ks[j].name, ks[k].name);
                        crate::paths::lemma_lex_neq(name, ks[k].name);
                    }
                    assert(false);
                }
                assert(n.value_at(q) is None);
                assert forall|k: int| 0 <= k < j implies m.children[k].name != name by {
                    assert(m.children[k] == ks[k]);
                    crate::paths::lemma_lex_neq(ks[k].name, name);
                }
                lemma_kids_get_scan(m.children, name, j);
                assert(kids_get(m.children, q[0]) == Some(c2));
                assert(f.wf());
                lemma_ins_value_at_other(f, prest, value, qrest);
                assert(f.value_at(qrest) is None);
            }
        }
    }
}

/// Looking one segment deeper first walks to the shorter path, then steps to
/// the named child: a missing path, or a node without that child, ends the
/// walk with "not found".
pub proof fn lemma_get_extend<T>(n: NodeModel<T>, p: Seq<Seq<char>>, s: Seq<char>)
    ensures
        n.get(p.push(s)) == match n.get(p) {
            Some(g) => kids_get(g.children, s),
            None => None::<NodeModel<T>>,
        },
    decreases p.len(),
{
    let pp = p.push(s);
    if p.len() == 0 {
        assert(pp.len() == 1);
        assert(pp[0] == s);
        assert(pp.subrange(1, pp.len() as int) =~= Seq::<Seq<char>>::empty());
        match kids_get(n.children, s) {
            Some(c) => {
                assert(n.get(pp) == c.get(pp.subrange(1, pp.len() as int)));
                assert(c.get(pp.subrange(1, pp.len() as int)) == Some(c));
            },
            None => {},
        }
    } else {
        assert(pp[0] == p[0]);
        let prest = p.subrange(1, p.len() as int);
        assert(pp.subrange(1, pp.len() as int) =~= prest.push(s));
        match kids_get(n.children, p[0]) {
            Some(c) => {
                lemma_get_extend(c, prest, s);
            },
            None => {},
        }
    }
}

/// After inserting at `p`, every strict prefix of `p` is present: its node
/// keeps the payload it had before (none, if it did not exist), and it has a
/// child named by the next segment of `p`.
pub proof fn lemma_ins_get_prefix<T>(n: NodeModel<T>, p: Seq<Seq<char>>, value: Option<T>, m: int)
    requires
        n.wf(),
        0 <= m < p.len(),
    ensures
        n.ins(p, value).get(p.subrange(0, m)) is Some,
        n.ins(p, value).get(p.subrange(0, m))->Some_0.value == n.value_at(p.subrange(0, m)),
        kids_get(n.ins(p, value).get(p.subrange(0, m))->Some_0.children, p[m]) is Some,
        n.ins(p, value).get(p.subrange(0, m))->Some_0.children.len() > 0,
    decreases m,
{
    let q = p.subrange(0, m);
    let ins = n.ins(p, value);
    let name = p[0];
    let prest = p.subrange(1, p.len() as int);
    let ks = n.children;
    let j = kids_pos(ks, name);
    lemma_kids_pos_bounds(ks, name);
    assert forall|k: int| 0 <= k < j implies ins.children[k].name != name by {
        assert(ins.children[k] == ks[k]);
        crate::paths::lemma_lex_neq(ks[k].name, name);
    }
    if j < ks.len() && ks[j].name == name {
        let c = ks[j];
        let c2 = c.ins(prest, value);
        lemma_ins_keeps_id(c, prest, value);
        assert(ins.children == ks.update(j, c2));
        lemma_kids_get_scan(ins.children, name, j);
        assert(kids_get(ins.children, name) == Some(c2));
        if m == 0 {
            assert(q.len() == 0);
            assert(ins.get(q) == Some(ins));
            assert(ins.children.len() > 0);
        } else {
            assert(q[0] == name);
            assert(q.subrange(1, q.len() as int) =~= prest.subrange(0, m - 1));
            assert(p[m] == prest[m - 1]);
            assert(c.wf());
            lemma_ins_get_prefix(c, prest, value, m - 1);
            assert forall|k: int| 0 <= k < j implies ks[k].name != name by {
                crate::paths::lemma_lex_neq(ks[k].name, name);
            }
            lemma_kids_get_scan(ks, name, j);
            assert(kids_get(ks, name) == Some(c));
        }
    } else {
        let f = n.fresh_child(name);
        let c2 = f.ins(prest, value);
        lemma_ins_keeps_id(f, prest, value);
        assert(ins.children == ks.insert(j, c2));
        assert(ins.children[j] == c2);
        lemma_kids_get_scan(ins.children, name, j);
        assert(kids_get(ins.children, name) == Some(c2));
        if m == 0 {
            assert(ins.get(q) == Some(ins));
            assert(ins.children.len() > 0);
        } else {
            assert(q[0] == name);
            assert(q.subrange(1, q.len() as int) =~= prest.subrange(0, m - 1));
            assert(p[m] == prest[m - 1]);
            assert(f.wf());
            lemma_ins_get_prefix(f, prest, value, m - 1);
            if kids_get(ks, name) is Some {
                lemma_kids_get_some_iff(ks, name);
                let k = choose|k: int|
                    0 <= k < ks.len() && ks[k] == kids_get(ks, name)->Some_0 && ks[k].name == name;
                lemma_sorted_pairwise(ks);
                if k < j {
                    crate::paths::lemma_lex_neq(ks[k].name, name);
                } else if k > j {
                    assert(!lex_lt(ks[j].name, name));
                    lemma_lex_connex(ks[j].name, name);
                    lemma_sorted_chain(ks, j, k);
                    lemma_lex_trans(name, ks[j].name, ks[k].name);
                    crate::paths::lemma_lex_neq(name, ks[k].name);
                }
                assert(false);
            }
            assert(n.value_at(q) is None);
            // the fresh child has no payload anywhere below it
            assert(f.value_at(prest.subrange(0, m - 1)) is None) by {
                let fq = prest.subrange(0, m - 1);
                if fq.len() == 0 {
                    assert(f.get(fq) == Some(f));
                } else {
                    assert(kids_get(f.children, fq[0]) is None);
                }
            }
        }
    }
}

/// Distinct dotted paths hold their payloads independently: inserting the
/// second never disturbs the first, whichever order they arrive in.
pub proof fn lemma_inserts_coexist<T>(
    n: NodeModel<T>,
    p1: Seq<Seq<char>>,
    v1: T,
    p2: Seq<Seq<char>>,
    v2: T,
)
    requires
        n.wf(),
        p1 != p2,
    ensures
        n.ins(p1, Some(v1)).ins(p2, Some(v2)).value_at(p1) == Some(v1),
        n.ins(p1, Some(v1)).ins(p2, Some(v2)).value_at(p2) == Some(v2),
{
    let n1 = n.ins(p1, Some(v1));
    lemma_ins_wf(n, p1, Some(v1));
    lemma_ins_get_same(n, p1, Some(v1));
    lemma_ins_get_same(n1, p2, Some(v2));
    lemma_ins_value_at_other(n1, p2, Some(v2), p1);
}

/// Re-inserting the same dotted path overwrites its payload and leaves the
/// payload at every other path exactly as it was.
pub proof fn lemma_reinsert_overwrites<T>(
    n: NodeModel<T>,
    p: Seq<Seq<char>>,
    v1: Option<T>,
    v2: Option<T>,
    q: Seq<Seq<char>>,
)
    requires
        n.wf(),
        q != p,
    ensures
        n.ins(p, v1).ins(p, v2).value_at(p) == v2,
        n.ins(p, v1).ins(p, v2).value_at(q) == n.value_at(q),
{
    let n1 = n.ins(p, v1);
    lemma_ins_wf(n, p, v1);
    lemma_ins_get_same(n1, p, v2);
    lemma_ins_value_at_other(n, p, v1, q);
    lemma_ins_value_at_other(n1, p, v2, q);
}

/// The children of any well-formed node stand in strictly ascending
/// lexicographic order of their segment names, whatever the insertion order
/// was.
pub proof fn lemma_children_ordered<T>(n: NodeModel<T>)
    requires
        n.wf(),
    ensures
        forall|i: int, j: int|
            0 <= i < j < n.children.len() ==> lex_lt(n.children[i].name, n.children[j].name),
{
    lemma_sorted_pairwise(n.children);
}

/// A path one segment longer than a childless node's path is never found.
pub proof fn lemma_get_beyond_leaf<T>(n: NodeModel<T>, p: Seq<Seq<char>>, s: Seq<char>)
    requires
        n.get(p) is Some ==> n.get(p)->Some_0.children.len() == 0,
    ensures
        n.get(p.push(s)) is None,
{
    lemma_get_extend(n, p, s);
}

/// A tree node. `children` holds the sub-nodes in strictly ascending
/// lexicographic order of their segment names; `value` is the payload set
/// when this exact dotted path was inserted, absent for intermediate nodes.
pub struct Node<T> {
    pub name: String,
    pub path: String,
    pub value: Option<T>,
    pub children: Vec<Node<T>>,
}

/// The models of a sequence of nodes, element by element.
pub open spec fn models_of<T>(s: Seq<Node<T>>) -> Seq<NodeModel<T>>
    decreases s, 1int,
{
    if s.len() == 0 {
        Seq::empty()
    } else {
        seq![s[0].model()] + models_of(s.subrange(1, s.len() as int))
    }
}

impl<T> Node<T> {
    /// The mathematical shape of this node.
    pub open spec fn model(self) -> NodeModel<T>
        decreases self, 0int,
    {
        NodeModel {
            name: self.name@,
            path: self.path@,
            value: self.value,
            children: models_of(self.children@),
        }
    }
}

/// `models_of` maps the sequence element by element.
pub proof fn lemma_models_of_facts<T>(s: Seq<Node<T>>)
    ensures
        models_of(s).len() == s.len(),
        forall|i: int| 0 <= i < s.len() ==> #[trigger] models_of(s)[i] == s[i].model(),
    decreases s.len(),
{
    if s.len() > 0 {
        let s1 = s.subrange(1, s.len() as int);
        lemma_models_of_facts(s1);
        assert forall|i: int| 0 <= i < s.len() implies #[trigger] models_of(s)[i] == s[i].model()
            by {
            if i > 0 {
                assert(models_of(s)[i] == models_of(s1)[i - 1]);
                assert(s1[i - 1] == s[i]);
            }
        }
    }
}

impl<T> View for Node<T> {
    type V = NodeModel<T>;

    open spec fn view(&self) -> NodeModel<T> {
        self.model()
    }
}

impl<T> Node<T> {
    /// A fresh node with no children.
    pub fn new(name: String, path: String, value: Option<T>) -> (r: Self)
        ensures
            r@ == (NodeModel { name: name@, path: path@, value, children: Seq::<NodeModel<T>>::empty() }),
    {
        let r = Node { name, path, value, children: Vec::new() };
        proof {
            assert(r@.children =~= Seq::<NodeModel<T>>::empty());
            assert(r@ =~= (NodeModel {
                name: r.name@,
                path: r.path@,
                value: r.value,
                children: Seq::<NodeModel<T>>::empty(),
            }));
        }
        r
    }

    /// The dotted path of a child named `part` under a node at `path`.
    pub fn make_path(path: &str, part: &str) -> (r: String)
        ensures
            r@ == dotted(path@, part@),
    {
        join_dotted(path, part)
    }

    /// Inserts `value` at the dotted path `name` below this node, creating
    /// any missing intermediate nodes without a payload, and overwriting the
    /// payload of the final node if it already exists.
    pub fn add_node(&mut self, name: &str, value: Option<T>)
        requires
            old(self)@.wf(),
        ensures
            final(self)@ == old(self)@.ins(split_path(name@), value),
            final(self)@.wf(),
    {
        let segs = split_dotted(name);
        self.insert_segs(&segs, 0, value);
        proof {
            lemma_ins_wf(old(self)@, split_path(name@), value);
            assert(seg_views(segs@).subrange(0, segs@.len() as int) =~= split_path(name@));
        }
    }

    #[verifier::rlimit(50)]
    fn insert_segs(&mut self, segs: &Vec<String>, i: usize, value: Option<T>)
        requires
            i <= segs@.len(),
            old(self)@.wf(),
        ensures
            final(self)@ == old(self)@.ins(
                seg_views(segs@).subrange(i as int, segs@.len() as int),
                value,
            ),
        decreases segs@.len() - i,
    {
        let ghost path = seg_views(segs@).subrange(i as int, segs@.len() as int);
        if i == segs.len() {
            self.value = value;
            proof {
                assert(path.len() == 0);
                assert(self@ =~= old(self)@.ins(path, value));
            }
        } else {
            let ghost name = segs@[i as int]@;
            let ghost ks = old(self)@.children;
            proof {
                assert(path[0] == name);
                assert(path.subrange(1, path.len() as int) =~= seg_views(segs@).subrange(
                    i + 1 as int,
                    segs@.len() as int,
                ));
            }
            let ghost orig = *self;
            let n = self.children.len();
            let mut j: usize = 0;
            while j < n && str_lt(self.children[j].name.as_str(), segs[i].as_str())
                invariant
                    0 <= j <= n,
                    i < segs@.len(),
                    *self == orig,
                    n == self.children@.len(),
                    name == segs@[i as int]@,
                    forall|k: int| 0 <= k < j ==> lex_lt(#[trigger] self@.children[k].name, name),
                decreases n - j,
            {
                proof {
                    lemma_models_of_facts(self.children@);
                    assert(self@.children[j as int].name == self.children@[j as int].name@);
                }
                j += 1;
            }
            proof {
                lemma_models_of_facts(self.children@);
                assert(ks == self@.children);
                assert(ks.len() == n);
                assert(j < n ==> !lex_lt(ks[j as int].name, name));
                lemma_kids_pos_from_scan(ks, name, j as int);
                assert(kids_pos(ks, name) == j);
            }
            if j < self.children.len() && self.children[j].name == segs[i] {
                let mut child = self.children.remove(j);
                proof {
                    lemma_models_of_facts(orig.children@);
                    assert(child@ == ks[j as int]);
                    assert(child@.wf());
                }
                child.insert_segs(segs, i + 1, value);
                self.children.insert(j, child);
                proof {
                    lemma_models_of_facts(self.children@);
                    lemma_models_of_facts(orig.children@);
                    let c2 = ks[j as int].ins(path.subrange(1, path.len() as int), value);
                    let ks2 = ks.update(j as int, c2);
                    assert(self.children@.len() == orig.children@.len());
                    assert forall|k: int| 0 <= k < self.children@.len() implies self@.children[k]
                        == ks2[k] by {
                        if k != j {
                            assert(self.children@[k] == orig.children@[k]);
                        } else {
                            assert(self.children@[k] == child);
                        }
                    }
                    assert(self@.children =~= ks2);
                    assert(self@ =~= old(self)@.ins(path, value));
                }
            } else {
                proof {
                    if j < ks.len() {
                        assert(ks[j as int].name != name);
                    }
                }
                let child_path = Self::make_path(self.path.as_str(), segs[i].as_str());
                let mut child = Node::new(segs[i].clone(), child_path, None);
                proof {
                    assert(child@ == old(self)@.fresh_child(name));
                    assert(child@.wf());
                }
                child.insert_segs(segs, i + 1, value);
                self.children.insert(j, child);
                proof {
                    lemma_models_of_facts(self.children@);
                    lemma_models_of_facts(orig.children@);
                    let c2 = old(self)@.fresh_child(name).ins(
                        path.subrange(1, path.len() as int),
                        value,
                    );
                    let ks2 = ks.insert(j as int, c2);
                    assert(self.children@.len() == orig.children@.len() + 1);
                    assert forall|k: int| 0 <= k < self.children@.len() implies self@.children[k]
                        == ks2[k] by {
                        if k < j {
                            assert(self.children@[k] == orig.children@[k]);
                        } else if k == j {
                            assert(self.children@[k] == child);
                        } else {
                            assert(self.children@[k] == orig.children@[k - 1]);
                        }
                    }
                    assert(self@.children =~= ks2);
                    assert(self@ =~= old(self)@.ins(path, value));
                }
            }
        }
    }

    /// Looks up the node at the dotted path `name` below this node, without
    /// creating anything; the empty name addresses this node itself.
    pub fn get_node<'a>(&'a self, name: &str) -> (r: Option<&'a Node<T>>)
        ensures
            match r {
                Some(node) => self@.get(split_path(name@)) == Some(node@),
                None => self@.get(split_path(name@)) is None,
            },
    {
        let segs = split_dotted(name);
        proof {
            assert(seg_views(segs@).subrange(0, segs@.len() as int) =~= split_path(name@));
        }
        self.get_segs(&segs, 0)
    }

    fn get_segs<'a>(&'a self, segs: &Vec<String>, i: usize) -> (r: Option<&'a Node<T>>)
        requires
            i <= segs@.len(),
        ensures
            match r {
                Some(node) => self@.get(
                    seg_views(segs@).subrange(i as int, segs@.len() as int),
                ) == Some(node@),
                None => self@.get(seg_views(segs@).subrange(i as int, segs@.len() as int)) is None,
            },
        decreases segs@.len() - i,
    {
        let ghost path = seg_views(segs@).subrange(i as int, segs@.len() as int);
        if i == segs.len() {
            proof {
                assert(path.len() == 0);
            }
            Some(self)
        } else {
            let ghost name = segs@[i as int]@;
            proof {
                assert(path[0] == name);
                assert(path.subrange(1, path.len() as int) =~= seg_views(segs@).subrange(
                    i + 1 as int,
                    segs@.len() as int,
                ));
            }
            let n = self.children.len();
            let mut j: usize = 0;
            while j < n
                invariant
                    0 <= j <= n,
                    i < segs@.len(),
                    segs@.len() <= usize::MAX,
                    n == self.children@.len(),
                    path == seg_views(segs@).subrange(i as int, segs@.len() as int),
                    name == segs@[i as int]@,
                    forall|k: int| 0 <= k < j ==> (#[trigger] self@.children[k]).name != name,
                decreases n - j,
            {
                if self.children[j].name == segs[i] {
                    proof {
                        lemma_models_of_facts(self.children@);
                        assert(self@.children[j as int].name == name);
                        lemma_kids_get_scan(self@.children, name, j as int);
                        assert(kids_get(self@.children, name) == Some(self@.children[j as int]));
                        assert(path[0] == name);
                        assert(path.subrange(1, path.len() as int) =~= seg_views(segs@).subrange(
                            i + 1 as int,
                            segs@.len() as int,
                        ));
                    }
                    return self.children[j].get_segs(segs, i + 1);
                }
                proof {
                    lemma_models_of_facts(self.children@);
                    assert(self@.children[j as int].name == self.children@[j as int].name@);
                }
                j += 1;
            }
            proof {
                lemma_models_of_facts(self.children@);
                lemma_kids_get_scan(self@.children, name, n as int);
                assert(kids_get(self@.children, name) is None);
            }
            None
        }
    }

    /// Whether any child of this node has children of its own.
    pub fn has_grandchild(&self) -> (r: bool)
        ensures
            r == exists|i: int|
                0 <= i < self@.children.len() && (#[trigger] self@.children[i]).children.len() > 0,
    {
        let n = self.children.len();
        let mut j: usize = 0;
        while j < n
            invariant
                0 <= j <= n,
                n == self.children@.len(),
                forall|k: int| 0 <= k < j ==> (#[trigger] self@.children[k]).children.len() == 0,
            decreases n - j,
        {
            if self.children[j].children.len() > 0 {
                proof {
                    lemma_models_of_facts(self.children@);
                    lemma_models_of_facts(self.children@[j as int].children@);
                    assert(self@.children[j as int].children.len() > 0);
                }
                return true;
            }
            proof {
                lemma_models_of_facts(self.children@);
                lemma_models_of_facts(self.children@[j as int].children@);
                assert(self@.children[j as int].children.len() == self.children@[
                    j as int
                ].children@.len());
            }
            j += 1;
        }
        proof {
            lemma_models_of_facts(self.children@);
        }
        false
    }
}

} // verus!
