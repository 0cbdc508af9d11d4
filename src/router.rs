//! The router: a trie over `/`-separated path segments whose nodes may hold a
//! handler. The nodes live in one vector; node 0 is the root.

use vstd::prelude::*;
use crate::request::{Request, target_of};
use crate::render::{Response, not_found, not_found_text};
use vstd::utf8::encode_utf8;
use crate::table::{Table, Entries, put_all, lemma_put_all_concat};
use crate::text::{split_on, split_terminated, before, after, chars_of, string_of,
    split_chars, find_char, chars_eq, slice_of, lemma_split_nonempty, lemma_index_of_bounds,
    lemma_split_lacks};

verus! {

/// A trie node: its children by segment, as indices into the router's nodes,
/// its handler, and whether a missed lookup below it fails.
pub struct Node<H> {
    pub children: Vec<(Vec<char>, usize)>,
    pub local: Option<H>,
    pub absolute: bool,
}

/// The child of a node under segment `seg`, if it has one.
pub open spec fn child_of(ch: Seq<(Vec<char>, usize)>, seg: Seq<char>) -> Option<int>
    decreases ch.len(),
{
    if ch.len() == 0 {
        None
    } else if ch[0].0@ == seg {
        Some(ch[0].1 as int)
    } else {
        child_of(ch.drop_first(), seg)
    }
}

/// The segments under which a path is registered: the leading `/` is ignored.
pub open spec fn register_segments(url: Seq<char>) -> Seq<Seq<char>> {
    let p = split_terminated(url, '/');
    if url.len() > 0 && url[0] == '/' && p.len() > 0 {
        p.drop_first()
    } else {
        p
    }
}

/// The segments of a request target: its first piece is skipped.
pub open spec fn request_segments(url: Seq<char>) -> Seq<Seq<char>> {
    let p = split_terminated(url, '/');
    if p.len() == 0 {
        p
    } else {
        p.drop_first()
    }
}

/// One `key=value` field of a query; a field without `=` has an empty key.
pub open spec fn query_field(x: Seq<char>) -> (Seq<char>, Seq<char>) {
    match after(x, '=') {
        Some(v) => (before(x, '='), v),
        None => (Seq::empty(), x),
    }
}

/// The query fields that a segment carries after its `?`, in order.
pub open spec fn query_fields(seg: Seq<char>) -> Entries {
    match after(seg, '?') {
        Some(q) => split_on(before(q, '?'), '&').map_values(|x: Seq<char>| query_field(x)),
        None => Seq::empty(),
    }
}

/// The node that exact segment matching reaches from `cur`.
pub open spec fn walk<H>(nodes: Seq<Node<H>>, cur: int, segs: Seq<Seq<char>>) -> Option<int>
    decreases segs.len(),
{
    if segs.len() == 0 {
        Some(cur)
    } else if !(0 <= cur < nodes.len()) {
        None
    } else {
        match child_of(nodes[cur].children@, segs[0]) {
            Some(c) => walk(nodes, c, segs.drop_first()),
            None => None,
        }
    }
}

/// The node that a request resolves to from `cur`: each segment, up to its
/// `?`, is looked up among the children; where none matches, an absolute node
/// gives no node and any other node answers itself.
pub open spec fn route<H>(nodes: Seq<Node<H>>, cur: int, segs: Seq<Seq<char>>) -> Option<int>
    decreases segs.len(),
{
    if segs.len() == 0 {
        Some(cur)
    } else if !(0 <= cur < nodes.len()) {
        None
    } else {
        match child_of(nodes[cur].children@, before(segs[0], '?')) {
            Some(c) => route(nodes, c, segs.drop_first()),
            None => if nodes[cur].absolute { None } else { Some(cur) },
        }
    }
}

/// The query fields that resolution reads, in order: those of each segment
/// looked up, including the one that found no child.
pub open spec fn route_fields<H>(nodes: Seq<Node<H>>, cur: int, segs: Seq<Seq<char>>) -> Entries
    decreases segs.len(),
{
    if segs.len() == 0 || !(0 <= cur < nodes.len()) {
        Seq::empty()
    } else {
        match child_of(nodes[cur].children@, before(segs[0], '?')) {
            Some(c) => query_fields(segs[0]) + route_fields(nodes, c, segs.drop_first()),
            None => query_fields(segs[0]),
        }
    }
}

pub struct Urls<H> {
    nodes: Vec<Node<H>>,
}

impl<H> Urls<H> {
    pub closed spec fn nodes(&self) -> Seq<Node<H>> {
        self.nodes@
    }

    pub closed spec fn wf(&self) -> bool {
        &&& self.nodes@.len() >= 1
        &&& forall|n: int, k: int|
            0 <= n < self.nodes@.len() && 0 <= k < self.nodes@[n].children@.len()
                ==> #[trigger] self.nodes@[n].children@[k].1 < self.nodes@.len()
    }

    /// The handler held by node `n`.
    pub closed spec fn handler_at(&self, n: int) -> Option<H> {
        self.nodes@[n].local
    }

    /// Whether node `n` is absolute.
    pub closed spec fn absolute_at(&self, n: int) -> bool {
        self.nodes@[n].absolute
    }

    /// A router with only a root, which has no handler.
    pub fn new(absolute: bool) -> (r: Urls<H>)
        ensures
            r.wf(),
            r.nodes().len() == 1,
            r.handler_at(0) is None,
            r.absolute_at(0) == absolute,
            r.nodes()[0].children@.len() == 0,
    {
        let root = Node { children: Vec::new(), local: None, absolute };
        let mut nodes: Vec<Node<H>> = Vec::new();
        nodes.push(root);
        Urls { nodes }
    }

    /// Installs `func` at the root, replacing the handler there.
    pub fn add(&mut self, func: H)
        requires
            old(self).wf(),
        ensures
            final(self).wf(),
            walk(final(self).nodes(), 0, Seq::empty()) == Some(0int),
            final(self).handler_at(0) == Some(func),
            final(self).absolute_at(0) == old(self).absolute_at(0),
    {
        let mut root = self.nodes.remove(0);
        root.local = Some(func);
        self.nodes.insert(0, root);
        assert forall|n: int, k: int|
            0 <= n < self.nodes@.len() && 0 <= k < self.nodes@[n].children@.len()
                implies #[trigger] self.nodes@[n].children@[k].1 < self.nodes@.len() by {
            assert(self.nodes@[n].children@ == old(self).nodes@[n].children@);
        }
    }

    /// Registers `func` at path `url`, creating the nodes on the way, and
    /// replacing any handler already there.
    pub fn append(&mut self, url: &str, func: H)
        requires
            old(self).wf(),
        ensures
            final(self).wf(),
            extends(old(self).nodes(), final(self).nodes()),
            forall|m: int| 0 <= m < old(self).nodes().len() ==> #[trigger] final(self).absolute_at(m) == old(self).absolute_at(m),
            forall|m: int| old(self).nodes().len() <= m < final(self).nodes().len() ==> #[trigger] final(self).absolute_at(m),
            forall|m: int, sg: Seq<char>|
                0 <= m < old(self).nodes().len() && (#[trigger] child_of(final(self).nodes()[m].children@, sg)) is Some
                    && child_of(old(self).nodes()[m].children@, sg) is None
                    ==> child_of(final(self).nodes()[m].children@, sg)->0 >= old(self).nodes().len()
                    && register_segments(url@).contains(sg),
            walk(final(self).nodes(), 0, register_segments(url@)) matches Some(t) && {
                &&& final(self).handler_at(t) == Some(func)
                &&& forall|m: int| 0 <= m < old(self).nodes().len() && m != t
                    ==> #[trigger] final(self).handler_at(m) == old(self).handler_at(m)
                &&& forall|m: int| old(self).nodes().len() <= m < final(self).nodes().len() && m != t
                    ==> #[trigger] final(self).handler_at(m) is None
            },
    {
        let ghost old_nodes = self.nodes@;
        let chars = chars_of(url);
        let parts = split_chars(&chars, '/');
        let ghost pv = parts@.map_values(|p: Vec<char>| p@);
        proof { lemma_split_nonempty(chars@, '/'); }
        let mut n: usize = parts.len();
        if parts[n - 1].len() == 0 {
            n = n - 1;
        }
        let ghost terminated = split_terminated(chars@, '/');
        assert(terminated =~= pv.subrange(0, n as int));
        let start: usize = if chars.len() > 0 && chars[0] == '/' && n > 0 { 1 } else { 0 };
        let ghost segs = register_segments(url@);
        assert(segs =~= pv.subrange(start as int, n as int));
        let mut cur: usize = 0;
        let mut k: usize = start;
        assert(segs.subrange(0, 0).len() == 0);
        while k < n
            invariant
                self.wf(),
                start <= k <= n <= parts@.len(),
                pv == parts@.map_values(|p: Vec<char>| p@),
                segs == pv.subrange(start as int, n as int),
                cur < self.nodes@.len(),
                walk(self.nodes@, 0, segs.subrange(0, k - start)) == Some(cur as int),
                old_nodes.len() <= self.nodes@.len(),
                extends(old_nodes, self.nodes@),
                forall|m: int| 0 <= m < old_nodes.len() ==> (#[trigger] self.nodes@[m]).absolute == old_nodes[m].absolute
                    && self.nodes@[m].local == old_nodes[m].local,
                forall|m: int| old_nodes.len() <= m < self.nodes@.len() ==> (#[trigger] self.nodes@[m]).absolute
                    && self.nodes@[m].local is None,
                forall|m: int, sg: Seq<char>|
                    0 <= m < old_nodes.len() && (#[trigger] child_of(self.nodes@[m].children@, sg)) is Some
                        && child_of(old_nodes[m].children@, sg) is None
                        ==> child_of(self.nodes@[m].children@, sg)->0 >= old_nodes.len()
                        && segs.contains(sg),
            decreases n - k,
        {
            let ghost before_nodes = self.nodes@;
            let ghost i = k - start;
            assert(segs[i] == parts@[k as int]@);
            match find_child(&self.nodes[cur], &parts[k]) {
                Some(c) => {
                    proof {
                        lemma_child_of_bounds(self.nodes@[cur as int].children@, parts@[k as int]@);
                        lemma_walk_step(self.nodes@, segs, i, 0, cur as int, c as int);
                    }
                    cur = c;
                },
                None => {
                    let idx = self.nodes.len();
                    let fresh = Node { children: Vec::new(), local: None, absolute: true };
                    self.nodes.push(fresh);
                    let ghost pushed = self.nodes@;
                    let seg = slice_of(&parts[k], 0, parts[k].len());
                    assert(parts@[k as int]@.subrange(0, parts@[k as int]@.len() as int) == parts@[k as int]@);
                    let mut node = self.nodes.remove(cur);
                    let ghost old_children = node.children@;
                    node.children.push((seg, idx));
                    self.nodes.insert(cur, node);
                    assert(self.nodes@.len() == pushed.len());
                    assert forall|m: int| 0 <= m < self.nodes@.len() && m != cur implies #[trigger] self.nodes@[m] == pushed[m] by {}
                    proof {
                        assert forall|m: int, sg: Seq<char>|
                            0 <= m < before_nodes.len() && (#[trigger] child_of(before_nodes[m].children@, sg)) is Some
                                implies child_of(self.nodes@[m].children@, sg) == child_of(before_nodes[m].children@, sg) by {
                            if m == cur {
                                lemma_child_of_push(old_children, (seg, idx), sg);
                            }
                        }
                        assert(extends(before_nodes, self.nodes@));
                        assert forall|m: int, sg: Seq<char>|
                            0 <= m < old_nodes.len() && (#[trigger] child_of(self.nodes@[m].children@, sg)) is Some
                                && child_of(old_nodes[m].children@, sg) is None
                                implies child_of(self.nodes@[m].children@, sg)->0 >= old_nodes.len()
                                && segs.contains(sg) by {
                            if m == cur {
                                lemma_child_of_push(old_children, (seg, idx), sg);
                                if child_of(old_children, sg) is None {
                                    assert(sg == segs[i]);
                                }
                            } else {
                                assert(self.nodes@[m] == before_nodes[m]);
                            }
                        }
                        assert forall|m: int, sg: Seq<char>|
                            0 <= m < old_nodes.len() && (#[trigger] child_of(old_nodes[m].children@, sg)) is Some
                                implies child_of(self.nodes@[m].children@, sg) == child_of(old_nodes[m].children@, sg) by {
                            assert(child_of(before_nodes[m].children@, sg) == child_of(old_nodes[m].children@, sg));
                        }
                        assert forall|m: int| 0 <= m < self.nodes@.len() && m != cur implies #[trigger] self.nodes@[m] == before_nodes.push(pushed[pushed.len() - 1])[m] by {
                            assert(pushed == before_nodes.push(pushed[pushed.len() - 1]));
                        }
                        lemma_walk_extends(before_nodes, self.nodes@, 0, segs.subrange(0, i));
                        lemma_child_of_push(old_children, (seg, idx), segs[i]);
                        lemma_walk_step(self.nodes@, segs, i, 0, cur as int, idx as int);
                        assert forall|m: int, j: int|
                            0 <= m < self.nodes@.len() && 0 <= j < self.nodes@[m].children@.len()
                                implies #[trigger] self.nodes@[m].children@[j].1 < self.nodes@.len() by {
                            if m == cur {
                                if j < old_children.len() {
                                    assert(self.nodes@[m].children@[j] == before_nodes[m].children@[j]);
                                }
                            } else if m < before_nodes.len() {
                                assert(self.nodes@[m] == before_nodes[m]);
                            }
                        }
                    }
                    cur = idx;
                },
            }
            k = k + 1;
        }
        assert(segs.subrange(0, (n - start) as int) == segs);
        let ghost before_nodes = self.nodes@;
        let mut node = self.nodes.remove(cur);
        node.local = Some(func);
        self.nodes.insert(cur, node);
        proof {
            assert forall|m: int| 0 <= m < self.nodes@.len() implies (#[trigger] self.nodes@[m]).children@ == before_nodes[m].children@ by {}
            assert forall|m: int, sg: Seq<char>|
                0 <= m < before_nodes.len() && (#[trigger] child_of(before_nodes[m].children@, sg)) is Some
                    implies child_of(self.nodes@[m].children@, sg) == child_of(before_nodes[m].children@, sg) by {
                assert(self.nodes@[m].children@ == before_nodes[m].children@);
            }
            lemma_walk_extends(before_nodes, self.nodes@, 0, segs);
            assert forall|m: int, sg: Seq<char>|
                0 <= m < old_nodes.len() && (#[trigger] child_of(old_nodes[m].children@, sg)) is Some
                    implies child_of(self.nodes@[m].children@, sg) == child_of(old_nodes[m].children@, sg) by {
                assert(self.nodes@[m].children@ == before_nodes[m].children@);
            }
            assert forall|m: int| 0 <= m < self.nodes@.len() && m != cur implies #[trigger] self.nodes@[m] == before_nodes[m] by {}
            assert forall|m: int, sg: Seq<char>|
                0 <= m < old_nodes.len() && (#[trigger] child_of(self.nodes@[m].children@, sg)) is Some
                    && child_of(old_nodes[m].children@, sg) is None
                    implies child_of(self.nodes@[m].children@, sg)->0 >= old_nodes.len()
                    && segs.contains(sg) by {
                assert(self.nodes@[m].children@ == before_nodes[m].children@);
            }
            assert forall|m: int, j: int|
                0 <= m < self.nodes@.len() && 0 <= j < self.nodes@[m].children@.len()
                    implies #[trigger] self.nodes@[m].children@[j].1 < self.nodes@.len() by {
                assert(self.nodes@[m].children@ == before_nodes[m].children@);
            }
        }
    }
}

/// The part of a segment before its `?`.
fn path_part(seg: &[char]) -> (r: Vec<char>)
    ensures
        r@ == before(seg@, '?'),
{
    match find_char(seg, '?') {
        Some(i) => {
            proof { lemma_index_of_bounds(seg@, '?'); }
            slice_of(seg, 0, i)
        },
        None => {
            assert(seg@.subrange(0, seg@.len() as int) == seg@);
            slice_of(seg, 0, seg.len())
        },
    }
}

/// Stores the query fields of `seg` into `args`, in order.
fn add_query(args: &mut Table, seg: &[char])
    ensures
        final(args)@ == put_all(old(args)@, query_fields(seg@)),
{
    proof { lemma_index_of_bounds(seg@, '?'); }
    let i = match find_char(seg, '?') {
        Some(i) => i,
        None => {
            return;
        },
    };
    let len = seg.len();
    assert(i < len);
    let q = slice_of(seg, i + 1, seg.len());
    proof { lemma_index_of_bounds(q@, '?'); }
    let q2 = match find_char(&q, '?') {
        Some(e) => slice_of(&q, 0, e),
        None => {
            assert(q@.subrange(0, q@.len() as int) == q@);
            slice_of(&q, 0, q.len())
        },
    };
    assert(q2@ == before(q@, '?'));
    let pieces = split_chars(&q2, '&');
    let ghost pv = pieces@.map_values(|p: Vec<char>| p@);
    let ghost fields = pv.map_values(|x: Seq<char>| query_field(x));
    assert(fields == query_fields(seg@));
    let ghost t0 = args@;
    let mut j: usize = 0;
    assert(fields.subrange(0, 0).len() == 0);
    while j < pieces.len()
        invariant
            j <= pieces@.len(),
            pv == pieces@.map_values(|p: Vec<char>| p@),
            fields == pv.map_values(|x: Seq<char>| query_field(x)),
            args@ == put_all(t0, fields.subrange(0, j as int)),
        decreases pieces@.len() - j,
    {
        let field = &pieces[j];
        assert(field@ == pv[j as int]);
        proof { lemma_index_of_bounds(field@, '='); }
        let (k, v) = match find_char(field, '=') {
            Some(e) => {
                let len = field.len();
                assert(e < len);
                (slice_of(field, 0, e), slice_of(field, e + 1, field.len()))
            },
            None => {
                assert(field@.subrange(0, field@.len() as int) == field@);
                (Vec::new(), slice_of(field, 0, field.len()))
            },
        };
        assert((k@, v@) == query_field(field@));
        args.insert(string_of(&k), string_of(&v));
        assert(fields.subrange(0, j + 1).drop_last() == fields.subrange(0, j as int));
        j = j + 1;
    }
    assert(fields.subrange(0, fields.len() as int) == fields);
}

/// `new` keeps every child lookup of `old` that succeeded.
pub open spec fn extends<H>(old: Seq<Node<H>>, new: Seq<Node<H>>) -> bool {
    &&& new.len() >= old.len()
    &&& forall|n: int, seg: Seq<char>|
        0 <= n < old.len() && (#[trigger] child_of(old[n].children@, seg)) is Some
            ==> child_of(new[n].children@, seg) == child_of(old[n].children@, seg)
}

proof fn lemma_walk_extends<H>(old: Seq<Node<H>>, new: Seq<Node<H>>, cur: int, segs: Seq<Seq<char>>)
    requires
        extends(old, new),
    ensures
        walk(old, cur, segs) is Some ==> walk(new, cur, segs) == walk(old, cur, segs),
    decreases segs.len(),
{
    if segs.len() > 0 && 0 <= cur < old.len() {
        if let Some(c) = child_of(old[cur].children@, segs[0]) {
            lemma_walk_extends(old, new, c, segs.drop_first());
        }
    }
}

proof fn lemma_child_of_push(ch: Seq<(Vec<char>, usize)>, x: (Vec<char>, usize), seg: Seq<char>)
    ensures
        child_of(ch, seg) is Some ==> child_of(ch.push(x), seg) == child_of(ch, seg),
        child_of(ch, seg) is None && x.0@ == seg ==> child_of(ch.push(x), seg) == Some(x.1 as int),
        child_of(ch, seg) is None && x.0@ != seg ==> child_of(ch.push(x), seg) is None,
    decreases ch.len(),
{
    if ch.len() > 0 {
        lemma_child_of_push(ch.drop_first(), x, seg);
        assert(ch.push(x).drop_first() =~= ch.drop_first().push(x));
        assert(ch.push(x)[0] == ch[0]);
    } else {
        assert(ch.push(x)[0] == x);
        assert(ch.push(x).drop_first() =~= Seq::<(Vec<char>, usize)>::empty());
        assert(child_of(Seq::<(Vec<char>, usize)>::empty(), seg) is None);
        if x.0@ != seg {
            assert(child_of(ch.push(x), seg) == child_of(ch.push(x).drop_first(), seg));
        }
    }
}

proof fn lemma_walk_step<H>(nodes: Seq<Node<H>>, segs: Seq<Seq<char>>, i: int, from: int, cur: int, c: int)
    requires
        0 <= i < segs.len(),
        walk(nodes, from, segs.subrange(0, i)) == Some(cur),
        0 <= cur < nodes.len(),
        child_of(nodes[cur].children@, segs[i]) == Some(c),
    ensures
        walk(nodes, from, segs.subrange(0, i + 1)) == Some(c),
    decreases i,
{
    let s = segs.subrange(0, i + 1);
    assert(s[0] == segs[0]);
    if i == 0 {
        assert(from == cur);
        assert(s.drop_first().len() == 0);
        assert(walk(nodes, c, s.drop_first()) == Some(c));
    } else {
        let p = segs.subrange(0, i);
        assert(p[0] == segs[0]);
        assert(0 <= from < nodes.len());
        let c0 = child_of(nodes[from].children@, segs[0])->0;
        assert(child_of(nodes[from].children@, segs[0]) is Some);
        assert(s.drop_first() =~= segs.drop_first().subrange(0, i));
        assert(p.drop_first() =~= segs.drop_first().subrange(0, i - 1));
        assert(walk(nodes, c0, p.drop_first()) == Some(cur));
        lemma_walk_step(nodes, segs.drop_first(), i - 1, c0, cur, c);
    }
}

proof fn lemma_child_of_bounds(ch: Seq<(Vec<char>, usize)>, seg: Seq<char>)
    ensures
        child_of(ch, seg) matches Some(c) ==> exists|k: int| 0 <= k < ch.len() && #[trigger] ch[k].1 == c,
    decreases ch.len(),
{
    if ch.len() > 0 && ch[0].0@ != seg {
        lemma_child_of_bounds(ch.drop_first(), seg);
        if let Some(c) = child_of(ch, seg) {
            let k = choose|k: int| 0 <= k < ch.drop_first().len() && #[trigger] ch.drop_first()[k].1 == c;
            assert(ch[k + 1].1 == c);
        }
    } else if ch.len() > 0 {
        assert(child_of(ch, seg) == Some(ch[0].1 as int));
    }
}

proof fn lemma_child_of_first(ch: Seq<(Vec<char>, usize)>, seg: Seq<char>, i: int)
    requires
        0 <= i <= ch.len(),
        forall|j: int| 0 <= j < i ==> (#[trigger] ch[j]).0@ != seg,
    ensures
        i < ch.len() && ch[i].0@ == seg ==> child_of(ch, seg) == Some(ch[i].1 as int),
        i == ch.len() ==> child_of(ch, seg) is None,
    decreases i,
{
    if i > 0 {
        let t = ch.drop_first();
        assert forall|j: int| 0 <= j < i - 1 implies (#[trigger] t[j]).0@ != seg by {
            assert(t[j] == ch[j + 1]);
        }
        lemma_child_of_first(t, seg, i - 1);
    }
}

/// Looks `seg` up among the children of `node`.
fn find_child<H>(node: &Node<H>, seg: &[char]) -> (r: Option<usize>)
    ensures
        r matches Some(c) ==> child_of(node.children@, seg@) == Some(c as int),
        r is None ==> child_of(node.children@, seg@) is None,
{
    let mut k: usize = 0;
    while k < node.children.len()
        invariant
            k <= node.children@.len(),
            forall|j: int| 0 <= j < k ==> (#[trigger] node.children@[j]).0@ != seg@,
        decreases node.children@.len() - k,
    {
        if chars_eq(&node.children[k].0, seg) {
            proof { lemma_child_of_first(node.children@, seg@, k as int); }
            return Some(node.children[k].1);
        }
        k = k + 1;
    }
    proof { lemma_child_of_first(node.children@, seg@, k as int); }
    None
}

impl<H> Urls<H> {
    /// The handler that a request for `url` resolves to, with the query
    /// fields read on the way.
    pub fn resolve(&self, url: &str) -> (r: (Option<&H>, Table))
        requires
            self.wf(),
        ensures
            r.1@ == put_all(Seq::empty(), route_fields(self.nodes(), 0, request_segments(url@))),
            r.0 is Some <==> (route(self.nodes(), 0, request_segments(url@)) matches Some(t)
                && self.handler_at(t) is Some),
            r.0 matches Some(h) ==> (route(self.nodes(), 0, request_segments(url@)) matches Some(t)
                && self.handler_at(t) == Some(*h)),
    {
        let chars = chars_of(url);
        let parts = split_chars(&chars, '/');
        let ghost pv = parts@.map_values(|p: Vec<char>| p@);
        proof { lemma_split_nonempty(chars@, '/'); }
        let mut n: usize = parts.len();
        if parts[n - 1].len() == 0 {
            n = n - 1;
        }
        assert(split_terminated(chars@, '/') =~= pv.subrange(0, n as int));
        let start: usize = if n > 0 { 1 } else { 0 };
        let ghost segs = request_segments(url@);
        assert(segs =~= pv.subrange(start as int, n as int));
        let ghost nodes = self.nodes@;
        let mut args = Table::new();
        let mut cur: usize = 0;
        let mut k: usize = start;
        let mut done = false;
        let mut found = true;
        let ghost mut consumed: Entries = Seq::empty();
        assert(segs.subrange(0, segs.len() as int) == segs);
        assert(consumed + route_fields(nodes, 0, segs) =~= route_fields(nodes, 0, segs));
        while k < n && !done
            invariant
                self.wf(),
                nodes == self.nodes@,
                start <= k <= n <= parts@.len(),
                pv == parts@.map_values(|p: Vec<char>| p@),
                segs == pv.subrange(start as int, n as int),
                cur < nodes.len(),
                args@ == put_all(Seq::empty(), consumed),
                !done ==> route(nodes, 0, segs) == route(nodes, cur as int, segs.subrange(k - start, segs.len() as int)),
                !done ==> route_fields(nodes, 0, segs) == consumed + route_fields(nodes, cur as int, segs.subrange(k - start, segs.len() as int)),
                done ==> route(nodes, 0, segs) == (if found { Some(cur as int) } else { None }),
                done ==> route_fields(nodes, 0, segs) == consumed,
                !done ==> found,
            decreases (n - k) as int + if done { 0int } else { 1int },
        {
            let ghost rest = segs.subrange(k - start, segs.len() as int);
            assert(rest[0] == parts@[k as int]@);
            assert(rest.drop_first() == segs.subrange(k - start + 1, segs.len() as int));
            let path = path_part(&parts[k]);
            let ghost before_args = args@;
            add_query(&mut args, &parts[k]);
            proof {
                lemma_put_all_concat(Seq::empty(), consumed, query_fields(rest[0]));
                consumed = consumed + query_fields(rest[0]);
            }
            match find_child(&self.nodes[cur], &path) {
                Some(c) => {
                    proof { lemma_child_of_bounds(nodes[cur as int].children@, path@); }
                    assert(route_fields(nodes, 0, segs) =~= consumed + route_fields(nodes, c as int, rest.drop_first()));
                    cur = c;
                    k = k + 1;
                },
                None => {
                    done = true;
                    found = !self.nodes[cur].absolute;
                    assert(route_fields(nodes, 0, segs) =~= consumed);
                },
            }
        }
        if !done {
            assert(segs.subrange(k - start, segs.len() as int).len() == 0);
            assert(route(nodes, cur as int, segs.subrange(k - start, segs.len() as int)) == Some(cur as int));
            assert(route_fields(nodes, 0, segs) =~= consumed);
        }
        if found {
            let h = match &self.nodes[cur].local {
                Some(h) => Some(h),
                None => None,
            };
            (h, args)
        } else {
            (None, args)
        }
    }
}


/// Whether no segment holds a `?`.
pub open spec fn plain_segments(segs: Seq<Seq<char>>) -> bool {
    forall|k: int, j: int| 0 <= k < segs.len() && 0 <= j < segs[k].len() ==> #[trigger] segs[k][j] != '?'
}

proof fn lemma_plain_segment(seg: Seq<char>)
    requires
        forall|j: int| 0 <= j < seg.len() ==> seg[j] != '?',
    ensures
        before(seg, '?') == seg,
        query_fields(seg) == Seq::<(Seq<char>, Seq<char>)>::empty(),
{
    lemma_index_of_bounds(seg, '?');
}

proof fn lemma_route_follows_walk<H>(nodes: Seq<Node<H>>, cur: int, segs: Seq<Seq<char>>)
    requires
        plain_segments(segs),
        walk(nodes, cur, segs) is Some,
    ensures
        route(nodes, cur, segs) == walk(nodes, cur, segs),
        route_fields(nodes, cur, segs) == Seq::<(Seq<char>, Seq<char>)>::empty(),
    decreases segs.len(),
{
    if segs.len() > 0 {
        assert forall|j: int| 0 <= j < segs[0].len() implies segs[0][j] != '?' by {
            assert(0 <= 0 < segs.len());
        }
        lemma_plain_segment(segs[0]);
        let rest = segs.drop_first();
        assert forall|k: int, j: int| 0 <= k < rest.len() && 0 <= j < rest[k].len() implies #[trigger] rest[k][j] != '?' by {
            assert(rest[k] == segs[k + 1]);
        }
        let c = child_of(nodes[cur].children@, segs[0])->0;
        lemma_route_follows_walk(nodes, c, rest);
        assert(route_fields(nodes, cur, segs) =~= Seq::<(Seq<char>, Seq<char>)>::empty() + route_fields(nodes, c, rest));
    }
}

proof fn lemma_url_plain(url: Seq<char>)
    requires
        url.len() > 0,
        url[0] == '/',
        forall|i: int| 0 <= i < url.len() ==> url[i] != '?',
    ensures
        register_segments(url) == request_segments(url),
        plain_segments(request_segments(url)),
{
    lemma_split_lacks(url, '/', '?');
    lemma_split_nonempty(url, '/');
    let p = split_on(url, '/');
    let t = split_terminated(url, '/');
    let r = request_segments(url);
    assert forall|k: int, j: int| 0 <= k < r.len() && 0 <= j < r[k].len() implies #[trigger] r[k][j] != '?' by {
        if t.len() > 0 {
            assert(r[k] == t[k + 1]);
            assert(t[k + 1] == p[k + 1]);
        }
    }
}

/// Registering a handler at a path that starts with `/` and holds no `?`,
/// then resolving a request for that same path, finds that handler, with no
/// query fields.
pub proof fn lemma_register_then_resolve<H>(r: Urls<H>, url: Seq<char>, h: H)
    requires
        r.wf(),
        url.len() > 0,
        url[0] == '/',
        forall|i: int| 0 <= i < url.len() ==> url[i] != '?',
        walk(r.nodes(), 0, register_segments(url)) matches Some(t) && r.handler_at(t) == Some(h),
    ensures
        route(r.nodes(), 0, request_segments(url)) matches Some(t) && r.handler_at(t) == Some(h),
        put_all(Seq::empty(), route_fields(r.nodes(), 0, request_segments(url))) == Seq::<(Seq<char>, Seq<char>)>::empty(),
{
    lemma_url_plain(url);
    lemma_route_follows_walk(r.nodes(), 0, request_segments(url));
}

/// Registering twice at one path leaves the later handler there: after the
/// first registration a request for the path finds the first handler, after
/// the second it finds the second.
pub proof fn lemma_reregister<H>(first: Urls<H>, second: Urls<H>, url: Seq<char>, h1: H, h2: H)
    requires
        first.wf(),
        second.wf(),
        url.len() > 0,
        url[0] == '/',
        forall|i: int| 0 <= i < url.len() ==> url[i] != '?',
        walk(first.nodes(), 0, register_segments(url)) matches Some(t) && first.handler_at(t) == Some(h1),
        walk(second.nodes(), 0, register_segments(url)) matches Some(t) && second.handler_at(t) == Some(h2),
    ensures
        route(second.nodes(), 0, request_segments(url)) matches Some(t) && second.handler_at(t) == Some(h2),
        route(first.nodes(), 0, request_segments(url)) matches Some(t) && first.handler_at(t) == Some(h1),
{
    lemma_register_then_resolve(first, url, h1);
    lemma_register_then_resolve(second, url, h2);
}

/// Below a node that a request reaches, a segment with no matching child ends
/// the lookup: at a node that is not absolute the node itself answers, at an
/// absolute one nothing does.
pub proof fn lemma_prefix_fallback<H>(r: Urls<H>, prefix: Seq<Seq<char>>, seg: Seq<char>, rest: Seq<Seq<char>>)
    requires
        r.wf(),
        plain_segments(prefix),
        walk(r.nodes(), 0, prefix) is Some,
        child_of(r.nodes()[walk(r.nodes(), 0, prefix)->0].children@, before(seg, '?')) is None,
    ensures
        route(r.nodes(), 0, prefix + seq![seg] + rest) == if r.absolute_at(walk(r.nodes(), 0, prefix)->0) {
            None
        } else {
            walk(r.nodes(), 0, prefix)
        },
{
    lemma_walk_bounds(r, 0, prefix);
    lemma_route_prefix(r.nodes(), 0, prefix, seg, rest);
}

proof fn lemma_walk_bounds<H>(r: Urls<H>, cur: int, segs: Seq<Seq<char>>)
    requires
        r.wf(),
        0 <= cur < r.nodes().len(),
    ensures
        walk(r.nodes(), cur, segs) matches Some(t) ==> 0 <= t < r.nodes().len(),
    decreases segs.len(),
{
    if segs.len() > 0 {
        let ch = r.nodes()[cur].children@;
        lemma_child_of_bounds(ch, segs[0]);
        if let Some(c) = child_of(ch, segs[0]) {
            let k = choose|k: int| 0 <= k < ch.len() && #[trigger] ch[k].1 == c;
            assert(r.nodes@[cur].children@[k].1 < r.nodes@.len());
            lemma_walk_bounds(r, c, segs.drop_first());
        }
    }
}

proof fn lemma_route_prefix<H>(nodes: Seq<Node<H>>, cur: int, prefix: Seq<Seq<char>>, seg: Seq<char>, rest: Seq<Seq<char>>)
    requires
        plain_segments(prefix),
        walk(nodes, cur, prefix) is Some,
        0 <= walk(nodes, cur, prefix)->0 < nodes.len(),
        child_of(nodes[walk(nodes, cur, prefix)->0].children@, before(seg, '?')) is None,
    ensures
        route(nodes, cur, prefix + seq![seg] + rest) == if nodes[walk(nodes, cur, prefix)->0].absolute {
            None
        } else {
            walk(nodes, cur, prefix)
        },
    decreases prefix.len(),
{
    let all = prefix + seq![seg] + rest;
    if prefix.len() == 0 {
        assert(all[0] == seg);
    } else {
        assert forall|j: int| 0 <= j < prefix[0].len() implies prefix[0][j] != '?' by {
            assert(0 <= 0 < prefix.len());
        }
        lemma_plain_segment(prefix[0]);
        let p2 = prefix.drop_first();
        assert forall|k: int, j: int| 0 <= k < p2.len() && 0 <= j < p2[k].len() implies #[trigger] p2[k][j] != '?' by {
            assert(p2[k] == prefix[k + 1]);
        }
        assert(all[0] == prefix[0]);
        assert(all.drop_first() =~= p2 + seq![seg] + rest);
        let c = child_of(nodes[cur].children@, prefix[0])->0;
        lemma_route_prefix(nodes, c, p2, seg, rest);
    }
}

/// A handler: it answers a request, given the peer's address and the query
/// fields, with a response or a failure message.
pub trait Handler<P> {
    fn handle(&self, req: Request, peer: P, args: Table) -> Result<Response, String>;
}

/// What a request is answered with, given its handler's result: the
/// handler's response as it is, or the fixed not-found response where the
/// handler failed.
pub fn answer(result: Result<Response, String>) -> (r: Response)
    ensures
        result matches Ok(page) ==> r == page,
        result is Err ==> r.remaining() == seq![encode_utf8(not_found_text())],
{
    match result {
        Ok(page) => page,
        Err(_) => not_found(),
    }
}

impl<H> Urls<H> {
    /// Dispatches `req` to the handler that its target resolves to. Where no
    /// handler is found, or the handler fails, the answer is the fixed
    /// not-found response.
    pub fn go<P>(&self, req: Request, peer: P) -> (r: Response)
        where H: Handler<P>,
        requires
            self.wf(),
        ensures
            !(route(self.nodes(), 0, request_segments(req.spec_url())) matches Some(t)
                && self.handler_at(t) is Some) ==> r.remaining() == seq![encode_utf8(not_found_text())],
    {
        let (h, args) = self.resolve(req.url());
        match h {
            Some(f) => answer(f.handle(req, peer, args)),
            None => not_found(),
        }
    }

    /// Answers a raw request: parses it, then dispatches it.
    pub fn respond<P>(&self, raw: &[u8], peer: P) -> (r: Response)
        where H: Handler<P>,
        requires
            self.wf(),
        ensures
            !(route(self.nodes(), 0, request_segments(target_of(raw@))) matches Some(t)
                && self.handler_at(t) is Some) ==> r.remaining() == seq![encode_utf8(not_found_text())],
    {
        let req = Request::parse(raw);
        self.go(req, peer)
    }
}

impl<H> Default for Urls<H> {
    fn default() -> (r: Urls<H>)
        ensures
            r.wf(),
            r.nodes().len() == 1,
            r.handler_at(0) is None,
            r.absolute_at(0),
            r.nodes()[0].children@.len() == 0,
    {
        Urls::new(true)
    }
}

} // verus!
