//! Nested-value trees: a recursive-descent parser for bracketed,
//! comma-separated integer lists, a three-way comparator implementing the
//! promotion/prefix ordering rules, and the batch reductions built on them.

use vstd::prelude::*;

verus! {

/// Outcome of a three-way comparison.
#[derive(PartialEq, Eq, Structural, Clone, Copy, Debug)]
pub enum Rel {
    Less,
    Equal,
    Greater,
}

/// A node of a nested-value tree: either a leaf holding an integer, or an
/// internal node holding an ordered sequence of children.
pub struct Node {
    pub children: Vec<Node>,
    pub value: i32,
    pub is_leaf: bool,
}

/// Number of nodes in a tree.  Termination measure of the comparator.
pub open spec fn size(n: Node) -> nat
    decreases n,
{
    1 + size_seq(n.children@)
}

/// Total number of nodes in a sequence of trees.
pub open spec fn size_seq(s: Seq<Node>) -> nat
    decreases s,
{
    if s.len() == 0 {
        0
    } else {
        size(s[0]) + size_seq(s.subrange(1, s.len() as int))
    }
}

/// A well-formed node: every leaf holds a non-negative value and has no
/// children.
pub open spec fn wf_node(n: Node) -> bool
    decreases n,
{
    if n.is_leaf {
        n.value >= 0 && n.children.len() == 0
    } else {
        forall|i: int| 0 <= i < n.children.len() ==> wf_node(#[trigger] n.children@[i])
    }
}

/// The children a node contributes to a pairwise comparison: a leaf is
/// promoted to the single-element sequence holding itself.
pub open spec fn child_seq(n: Node) -> Seq<Node> {
    if n.is_leaf {
        seq![n]
    } else {
        n.children@
    }
}

/// The three-way ordering on trees.  Two leaves compare by value; a leaf
/// against a list is promoted to a single-element list; two lists compare
/// children pairwise, a strict prefix ordering before the longer list.
pub open spec fn spec_compare(a: Node, b: Node) -> Rel
    decreases size(a) + size(b), 0nat,
        via compare_decreases
{
    if a.is_leaf && b.is_leaf {
        if a.value < b.value {
            Rel::Less
        } else if a.value == b.value {
            Rel::Equal
        } else {
            Rel::Greater
        }
    } else {
        spec_compare_seqs(child_seq(a), child_seq(b))
    }
}

/// Pairwise lexicographic comparison of two child sequences.
pub open spec fn spec_compare_seqs(xs: Seq<Node>, ys: Seq<Node>) -> Rel
    decreases size_seq(xs) + size_seq(ys), 1nat,
        via compare_seqs_decreases
{
    if xs.len() == 0 && ys.len() == 0 {
        Rel::Equal
    } else if xs.len() == 0 {
        Rel::Less
    } else if ys.len() == 0 {
        Rel::Greater
    } else {
        let c = spec_compare(xs[0], ys[0]);
        if c != Rel::Equal {
            c
        } else {
            spec_compare_seqs(
                xs.subrange(1, xs.len() as int),
                ys.subrange(1, ys.len() as int),
            )
        }
    }
}

/// A singleton sequence holds exactly its one element's nodes.
proof fn lemma_size_singleton(n: Node)
    ensures
        size_seq(seq![n]) == size(n),
{
    let s = seq![n];
    assert(s.subrange(1, 1) =~= Seq::<Node>::empty());
    assert(size_seq(s.subrange(1, s.len() as int)) == 0);
    assert(size_seq(s) == size(s[0]) + size_seq(s.subrange(1, s.len() as int)));
    assert(s[0] == n);
}

/// A promoted child sequence is never larger than the node it came from,
/// and is strictly smaller for an internal node.
proof fn lemma_size_child_seq(n: Node)
    ensures
        size_seq(child_seq(n)) <= size(n),
        !n.is_leaf ==> size_seq(child_seq(n)) < size(n),
{
    if n.is_leaf {
        lemma_size_singleton(n);
    }
}

#[via_fn]
proof fn compare_decreases(a: Node, b: Node) {
    lemma_size_child_seq(a);
    lemma_size_child_seq(b);
}

#[via_fn]
proof fn compare_seqs_decreases(xs: Seq<Node>, ys: Seq<Node>) {
}

/// An element of a sequence contributes no more than the whole sequence.
proof fn lemma_size_seq_elem(s: Seq<Node>, i: int)
    requires
        0 <= i < s.len(),
    ensures
        size(s[i]) <= size_seq(s),
    decreases i,
{
    if i == 0 {
    } else {
        lemma_size_seq_elem(s.subrange(1, s.len() as int), i - 1);
    }
}

/// The result of swapping the two operands of a comparison.
pub open spec fn flip_rel(r: Rel) -> Rel {
    match r {
        Rel::Less => Rel::Greater,
        Rel::Equal => Rel::Equal,
        Rel::Greater => Rel::Less,
    }
}

/// Whatever the operand shapes, a comparison can be read as the pairwise
/// comparison of the promoted child sequences.
proof fn lemma_compare_as_seqs(a: Node, b: Node)
    ensures
        spec_compare(a, b) == spec_compare_seqs(child_seq(a), child_seq(b)),
{
    if a.is_leaf && b.is_leaf {
        let xs = seq![a];
        let ys = seq![b];
        assert(xs.subrange(1, 1) =~= Seq::<Node>::empty());
        assert(ys.subrange(1, 1) =~= Seq::<Node>::empty());
        assert(spec_compare_seqs(xs.subrange(1, 1), ys.subrange(1, 1)) == Rel::Equal);
        assert(spec_compare_seqs(xs, ys) == if spec_compare(a, b) != Rel::Equal {
            spec_compare(a, b)
        } else {
            Rel::Equal
        });
    }
}

/// Comparing a tree with itself yields `Equal`.
pub proof fn lemma_compare_refl(a: Node)
    ensures
        spec_compare(a, a) == Rel::Equal,
    decreases size(a), 0nat,
{
    if a.is_leaf {
    } else {
        lemma_size_child_seq(a);
        lemma_compare_seqs_refl(a.children@);
    }
}

proof fn lemma_compare_seqs_refl(xs: Seq<Node>)
    ensures
        spec_compare_seqs(xs, xs) == Rel::Equal,
    decreases size_seq(xs), 1nat,
{
    if xs.len() == 0 {
    } else {
        lemma_size_seq_elem(xs, 0);
        lemma_compare_refl(xs[0]);
        lemma_compare_seqs_refl(xs.subrange(1, xs.len() as int));
    }
}

/// Swapping the operands flips the outcome.
pub proof fn lemma_compare_flip(a: Node, b: Node)
    ensures
        spec_compare(b, a) == flip_rel(spec_compare(a, b)),
    decreases size(a) + size(b), 0nat,
{
    if a.is_leaf && b.is_leaf {
    } else {
        lemma_size_child_seq(a);
        lemma_size_child_seq(b);
        lemma_compare_as_seqs(a, b);
        lemma_compare_as_seqs(b, a);
        lemma_compare_seqs_flip(child_seq(a), child_seq(b));
    }
}

proof fn lemma_compare_seqs_flip(xs: Seq<Node>, ys: Seq<Node>)
    ensures
        spec_compare_seqs(ys, xs) == flip_rel(spec_compare_seqs(xs, ys)),
    decreases size_seq(xs) + size_seq(ys), 1nat,
{
    if xs.len() == 0 || ys.len() == 0 {
    } else {
        lemma_size_seq_elem(xs, 0);
        lemma_size_seq_elem(ys, 0);
        lemma_compare_flip(xs[0], ys[0]);
        lemma_compare_seqs_flip(
            xs.subrange(1, xs.len() as int),
            ys.subrange(1, ys.len() as int),
        );
    }
}

/// Transitivity of the comparator, in its `<=` form: if neither step goes
/// up, the composition does not go up, and one strict step keeps the
/// composition strict.
pub proof fn lemma_compare_trans(a: Node, b: Node, c: Node)
    requires
        spec_compare(a, b) != Rel::Greater,
        spec_compare(b, c) != Rel::Greater,
    ensures
        spec_compare(a, c) != Rel::Greater,
        spec_compare(a, b) == Rel::Less || spec_compare(b, c) == Rel::Less
            ==> spec_compare(a, c) == Rel::Less,
    decreases size(a) + size(b) + size(c), 0nat,
{
    if a.is_leaf && b.is_leaf && c.is_leaf {
    } else {
        lemma_size_child_seq(a);
        lemma_size_child_seq(b);
        lemma_size_child_seq(c);
        lemma_compare_as_seqs(a, b);
        lemma_compare_as_seqs(b, c);
        lemma_compare_as_seqs(a, c);
        lemma_compare_seqs_trans(child_seq(a), child_seq(b), child_seq(c));
    }
}

proof fn lemma_compare_seqs_trans(xs: Seq<Node>, ys: Seq<Node>, zs: Seq<Node>)
    requires
        spec_compare_seqs(xs, ys) != Rel::Greater,
        spec_compare_seqs(ys, zs) != Rel::Greater,
    ensures
        spec_compare_seqs(xs, zs) != Rel::Greater,
        spec_compare_seqs(xs, ys) == Rel::Less || spec_compare_seqs(ys, zs) == Rel::Less
            ==> spec_compare_seqs(xs, zs) == Rel::Less,
    decreases size_seq(xs) + size_seq(ys) + size_seq(zs), 1nat,
{
    if xs.len() == 0 {
        // xs vs zs is Less or Equal by shape alone; strictness needs zs nonempty.
        if ys.len() == 0 {
        } else {
            assert(zs.len() > 0);
        }
    } else {
        assert(ys.len() > 0);
        assert(zs.len() > 0);
        lemma_size_seq_elem(xs, 0);
        lemma_size_seq_elem(ys, 0);
        lemma_size_seq_elem(zs, 0);
        let c1 = spec_compare(xs[0], ys[0]);
        let c2 = spec_compare(ys[0], zs[0]);
        assert(c1 != Rel::Greater && c2 != Rel::Greater);
        lemma_compare_trans(xs[0], ys[0], zs[0]);
        if spec_compare(xs[0], zs[0]) == Rel::Equal {
            assert(c1 == Rel::Equal && c2 == Rel::Equal);
            lemma_compare_seqs_trans(
                xs.subrange(1, xs.len() as int),
                ys.subrange(1, ys.len() as int),
                zs.subrange(1, zs.len() as int),
            );
        }
    }
}

impl Node {
    /// An empty internal node.
    pub fn new() -> (r: Node)
        ensures
            !r.is_leaf,
            r.value == 0,
            r.children@ == Seq::<Node>::empty(),
    {
        Node { children: Vec::new(), value: 0, is_leaf: false }
    }

    /// A leaf holding `value`.
    pub fn new_leaf(value: i32) -> (r: Node)
        ensures
            r.is_leaf,
            r.value == value,
            r.children@ == Seq::<Node>::empty(),
    {
        Node { children: Vec::new(), value, is_leaf: true }
    }

    /// Append a child, keeping textual left-to-right order.
    pub fn add_child(&mut self, child: Node)
        ensures
            final(self).children@ == old(self).children@.push(child),
            final(self).value == old(self).value,
            final(self).is_leaf == old(self).is_leaf,
    {
        self.children.push(child);
    }

    /// Whether this node is a leaf.
    pub fn is_leaf(&self) -> (r: bool)
        ensures
            r == self.is_leaf,
    {
        self.is_leaf
    }

    /// Three-way comparison, as [`spec_compare`] describes it.
    pub fn compare(&self, other: &Node) -> (r: Rel)
        ensures
            r == spec_compare(*self, *other),
        decreases size(*self) + size(*other), 0nat,
    {
        if self.is_leaf && other.is_leaf {
            if self.value < other.value {
                Rel::Less
            } else if self.value == other.value {
                Rel::Equal
            } else {
                Rel::Greater
            }
        } else if self.is_leaf {
            proof {
                lemma_compare_as_seqs(*self, *other);
                lemma_size_child_seq(*other);
                lemma_size_singleton(*self);
            }
            let ghost xs = seq![*self];
            let ghost ys = other.children@;
            if other.children.len() == 0 {
                assert(spec_compare_seqs(xs, ys) == Rel::Greater);
                Rel::Greater
            } else {
                proof {
                    lemma_size_seq_elem(other.children@, 0);
                }
                let c = self.compare(&other.children[0]);
                proof {
                    assert(xs.subrange(1, 1) =~= Seq::<Node>::empty());
                    assert(xs[0] == *self);
                    assert(c == spec_compare(xs[0], ys[0]));
                }
                if c != Rel::Equal {
                    assert(spec_compare_seqs(xs, ys) == c);
                    c
                } else if other.children.len() == 1 {
                    proof {
                        reveal_with_fuel(spec_compare_seqs, 2);
                        assert(ys.subrange(1, ys.len() as int).len() == 0);
                        assert(spec_compare_seqs(xs, ys) == Rel::Equal);
                    }
                    Rel::Equal
                } else {
                    proof {
                        reveal_with_fuel(spec_compare_seqs, 2);
                        assert(xs.subrange(1, 1).len() == 0);
                        assert(ys.subrange(1, ys.len() as int).len() > 0);
                        assert(spec_compare_seqs(xs, ys) == Rel::Less);
                    }
                    Rel::Less
                }
            }
        } else if other.is_leaf {
            proof {
                lemma_compare_as_seqs(*self, *other);
                lemma_size_child_seq(*self);
                lemma_size_singleton(*other);
            }
            let ghost xs = self.children@;
            let ghost ys = seq![*other];
            if self.children.len() == 0 {
                assert(spec_compare_seqs(xs, ys) == Rel::Less);
                Rel::Less
            } else {
                proof {
                    lemma_size_seq_elem(self.children@, 0);
                }
                let c = self.children[0].compare(other);
                proof {
                    assert(ys.subrange(1, 1) =~= Seq::<Node>::empty());
                    assert(ys[0] == *other);
                    assert(c == spec_compare(xs[0], ys[0]));
                }
                if c != Rel::Equal {
                    assert(spec_compare_seqs(xs, ys) == c);
                    c
                } else if self.children.len() == 1 {
                    proof {
                        reveal_with_fuel(spec_compare_seqs, 2);
                        assert(xs.subrange(1, xs.len() as int).len() == 0);
                        assert(spec_compare_seqs(xs, ys) == Rel::Equal);
                    }
                    Rel::Equal
                } else {
                    proof {
                        reveal_with_fuel(spec_compare_seqs, 2);
                        assert(ys.subrange(1, 1).len() == 0);
                        assert(xs.subrange(1, xs.len() as int).len() > 0);
                        assert(spec_compare_seqs(xs, ys) == Rel::Greater);
                    }
                    Rel::Greater
                }
            }
        } else {
            let ghost xs = self.children@;
            let ghost ys = other.children@;
            let n1 = self.children.len();
            let n2 = other.children.len();
            let mut i: usize = 0;
            proof {
                assert(xs.subrange(0, n1 as int) =~= xs);
                assert(ys.subrange(0, n2 as int) =~= ys);
                assert(child_seq(*self) == xs);
                assert(child_seq(*other) == ys);
                assert(spec_compare(*self, *other) == spec_compare_seqs(xs, ys));
            }
            while i < n1 && i < n2
                invariant
                    i <= n1,
                    i <= n2,
                    n1 == xs.len(),
                    n2 == ys.len(),
                    xs == self.children@,
                    ys == other.children@,
                    !self.is_leaf,
                    !other.is_leaf,
                    spec_compare(*self, *other) == spec_compare_seqs(xs, ys),
                    spec_compare_seqs(
                        xs.subrange(i as int, n1 as int),
                        ys.subrange(i as int, n2 as int),
                    ) == spec_compare_seqs(xs, ys),
                decreases n1 - i,
            {
                proof {
                    lemma_size_seq_elem(xs, i as int);
                    lemma_size_seq_elem(ys, i as int);
                }
                let c = self.children[i].compare(&other.children[i]);
                let ghost tx = xs.subrange(i as int, n1 as int);
                let ghost ty = ys.subrange(i as int, n2 as int);
                proof {
                    assert(tx[0] == xs[i as int]);
                    assert(ty[0] == ys[i as int]);
                }
                if c != Rel::Equal {
                    proof {
                        assert(tx.len() > 0 && ty.len() > 0);
                        assert(spec_compare_seqs(tx, ty) == c);
                        assert(spec_compare(*self, *other) == spec_compare_seqs(xs, ys));
                    }
                    return c;
                }
                proof {
                    assert(tx.subrange(1, tx.len() as int) =~= xs.subrange(
                        i + 1,
                        n1 as int,
                    ));
                    assert(ty.subrange(1, ty.len() as int) =~= ys.subrange(
                        i + 1,
                        n2 as int,
                    ));
                }
                i += 1;
            }
            proof {
                assert(xs.subrange(i as int, n1 as int).len() == n1 - i);
                assert(ys.subrange(i as int, n2 as int).len() == n2 - i);
                assert(spec_compare(*self, *other) == spec_compare_seqs(xs, ys));
            }
            if n1 == n2 {
                Rel::Equal
            } else if i == n1 {
                Rel::Less
            } else {
                Rel::Greater
            }
        }
    }
}

/// The mathematical shape of a node: an integer leaf or a sequence of
/// child shapes.  This is the model the parser and serializer contracts
/// speak of.
pub enum NodeView {
    Leaf(int),
    List(Seq<NodeView>),
}

/// The shape of a tree, forgetting the executable representation.
pub open spec fn node_view(n: Node) -> NodeView
    decreases n,
{
    if n.is_leaf {
        NodeView::Leaf(n.value as int)
    } else {
        NodeView::List(views_of(n.children@))
    }
}

/// The shapes of a sequence of trees, in order.
pub open spec fn views_of(s: Seq<Node>) -> Seq<NodeView>
    decreases s,
{
    if s.len() == 0 {
        Seq::empty()
    } else {
        seq![node_view(s[0])] + views_of(s.subrange(1, s.len() as int))
    }
}

impl View for Node {
    type V = NodeView;

    open spec fn view(&self) -> NodeView {
        node_view(*self)
    }
}

/// `views_of` maps indices one to one.
proof fn lemma_views_of_len(s: Seq<Node>)
    ensures
        views_of(s).len() == s.len(),
        forall|i: int| 0 <= i < s.len() ==> views_of(s)[i] == node_view(#[trigger] s[i]),
    decreases s.len(),
{
    if s.len() > 0 {
        let tail = s.subrange(1, s.len() as int);
        lemma_views_of_len(tail);
        assert forall|i: int| 0 <= i < s.len() implies views_of(s)[i] == node_view(
            #[trigger] s[i],
        ) by {
            if i > 0 {
                assert(views_of(s)[i] == views_of(tail)[i - 1]);
                assert(tail[i - 1] == s[i]);
            }
        }
    }
}

/// Trees of equal shape compare `Equal`: the comparator reads only the
/// shape, never the representation.
pub proof fn lemma_compare_congruent(a: Node, b: Node)
    requires
        a@ == b@,
    ensures
        spec_compare(a, b) == Rel::Equal,
    decreases size(a) + size(b), 0nat,
{
    if a.is_leaf && b.is_leaf {
    } else if !a.is_leaf && !b.is_leaf {
        lemma_size_child_seq(a);
        lemma_size_child_seq(b);
        lemma_views_of_len(a.children@);
        lemma_views_of_len(b.children@);
        lemma_compare_seqs_congruent(a.children@, b.children@);
    } else {
        // A leaf and a list never share a shape.
        assert(false);
    }
}

proof fn lemma_compare_seqs_congruent(xs: Seq<Node>, ys: Seq<Node>)
    requires
        views_of(xs) == views_of(ys),
    ensures
        spec_compare_seqs(xs, ys) == Rel::Equal,
    decreases size_seq(xs) + size_seq(ys), 1nat,
{
    lemma_views_of_len(xs);
    lemma_views_of_len(ys);
    if xs.len() == 0 {
    } else {
        assert(ys.len() == xs.len());
        lemma_size_seq_elem(xs, 0);
        lemma_size_seq_elem(ys, 0);
        assert(views_of(xs)[0] == node_view(xs[0]));
        assert(views_of(ys)[0] == node_view(ys[0]));
        assert(node_view(xs[0]) == node_view(ys[0]));
        lemma_compare_congruent(xs[0], ys[0]);
        let tx = xs.subrange(1, xs.len() as int);
        let ty = ys.subrange(1, ys.len() as int);
        lemma_views_of_len(tx);
        lemma_views_of_len(ty);
        assert forall|i: int| 0 <= i < views_of(tx).len() implies views_of(tx)[i] == views_of(
            ty,
        )[i] by {
            assert(views_of(tx)[i] == node_view(tx[i]));
            assert(tx[i] == xs[i + 1]);
            assert(ty[i] == ys[i + 1]);
            assert(views_of(xs)[i + 1] == node_view(xs[i + 1]));
            assert(views_of(ys)[i + 1] == node_view(ys[i + 1]));
        }
        assert(views_of(tx) =~= views_of(ty));
        lemma_compare_seqs_congruent(tx, ty);
    }
}

/// Whether a byte is a decimal digit.
pub open spec fn is_digit(b: u8) -> bool {
    48 <= b <= 57
}

/// The decimal digits of `v`, most significant first.
pub open spec fn dec_digits(v: nat) -> Seq<u8>
    decreases v,
{
    if v < 10 {
        seq![(48 + v) as u8]
    } else {
        dec_digits(v / 10) + seq![(48 + v % 10) as u8]
    }
}

/// The value of a run of decimal digits.
pub open spec fn digits_val(ds: Seq<u8>) -> int
    decreases ds.len(),
{
    if ds.len() == 0 {
        0
    } else {
        digits_val(ds.drop_last()) * 10 + (ds.last() - 48)
    }
}

/// `dec_digits` yields at least one byte, all digits, and `digits_val`
/// reads the value back.
pub proof fn lemma_dec_digits(v: nat)
    ensures
        dec_digits(v).len() >= 1,
        forall|i: int| 0 <= i < dec_digits(v).len() ==> is_digit(#[trigger] dec_digits(v)[i]),
        digits_val(dec_digits(v)) == v,
    decreases v,
{
    if v < 10 {
        let ds = dec_digits(v);
        assert(ds.drop_last() =~= Seq::<u8>::empty());
        assert(digits_val(Seq::<u8>::empty()) == 0);
        assert(digits_val(ds) == (ds.last() - 48));
    } else {
        lemma_dec_digits(v / 10);
        let ds = dec_digits(v);
        assert(ds.drop_last() =~= dec_digits(v / 10));
        assert(ds.last() == (48 + v % 10) as u8);
        assert(digits_val(ds) == (v / 10) * 10 + v % 10);
        assert((v / 10) * 10 + v % 10 == v) by {
            vstd::arithmetic::div_mod::lemma_fundamental_div_mod(v as int, 10);
        }
    }
}

/// A digit run is worth no less than any of its prefixes.
pub proof fn lemma_digits_val_mono(ds: Seq<u8>, k: int)
    requires
        0 <= k <= ds.len(),
        forall|i: int| 0 <= i < ds.len() ==> is_digit(#[trigger] ds[i]),
    ensures
        0 <= digits_val(ds.subrange(0, k)) <= digits_val(ds),
    decreases ds.len(),
{
    if ds.len() == 0 {
        assert(ds.subrange(0, 0) =~= ds);
    } else {
        lemma_digits_val_mono(ds.drop_last(), if k <= ds.len() - 1 {
            k
        } else {
            ds.len() - 1
        });
        if k == ds.len() {
            assert(ds.subrange(0, k) =~= ds);
            assert(ds.drop_last().subrange(0, ds.len() - 1) =~= ds.drop_last());
        } else {
            assert(ds.subrange(0, k) =~= ds.drop_last().subrange(0, k));
        }
    }
}

/// Serialized text of a tree: a leaf as decimal digits, an internal node
/// as its children between square brackets, separated by `", "`.
pub open spec fn render_node(n: Node) -> Seq<u8>
    decreases size(n), 0nat, 0nat,
{
    if n.is_leaf {
        dec_digits(if n.value >= 0 {
            n.value as nat
        } else {
            0
        })
    } else {
        seq![91u8] + render_items(n.children@) + seq![93u8]
    }
}

/// Serialized text of a child list, `", "` between elements.
pub open spec fn render_items(s: Seq<Node>) -> Seq<u8>
    decreases size_seq(s), 1nat, s.len(),
        via render_items_decreases
{
    if s.len() == 0 {
        Seq::empty()
    } else if s.len() == 1 {
        render_node(s[0])
    } else {
        render_node(s[0]) + seq![44u8, 32u8] + render_items(s.subrange(1, s.len() as int))
    }
}

#[via_fn]
proof fn render_items_decreases(s: Seq<Node>) {
    if s.len() > 0 {
        lemma_size_seq_elem(s, 0);
    }
}

/// Append the decimal digits of `v`.
fn push_decimal(v: u32, out: &mut Vec<u8>)
    ensures
        final(out)@ == old(out)@ + dec_digits(v as nat),
    decreases v,
{
    if v < 10 {
        out.push(48 + v as u8);
        assert(out@ =~= old(out)@ + dec_digits(v as nat));
    } else {
        push_decimal(v / 10, out);
        out.push(48 + (v % 10) as u8);
        assert(out@ =~= old(out)@ + dec_digits(v as nat));
    }
}

impl Node {
    /// Serialize the tree back to bracketed text.
    pub fn to_bytes(&self) -> (out: Vec<u8>)
        requires
            wf_node(*self),
        ensures
            out@ == render_node(*self),
    {
        let mut out = Vec::new();
        self.write_into(&mut out);
        out
    }

    fn write_into(&self, out: &mut Vec<u8>)
        requires
            wf_node(*self),
        ensures
            final(out)@ == old(out)@ + render_node(*self),
        decreases size(*self), 0nat, 0nat,
    {
        if self.is_leaf {
            push_decimal(self.value as u32, out);
        } else {
            out.push(91);
            write_items(&self.children, 0, out);
            out.push(93);
            assert(self.children@.subrange(0, self.children@.len() as int) =~= self.children@);
            assert(out@ =~= old(out)@ + render_node(*self));
        }
    }
}

fn write_items(items: &Vec<Node>, from: usize, out: &mut Vec<u8>)
    requires
        from <= items.len(),
        forall|i: int| 0 <= i < items.len() ==> wf_node(#[trigger] items@[i]),
    ensures
        final(out)@ == old(out)@ + render_items(items@.subrange(from as int, items@.len() as int)),
    decreases size_seq(items@), 1nat, items@.len() - from,
{
    let ghost tail = items@.subrange(from as int, items@.len() as int);
    if from == items.len() {
        assert(out@ =~= old(out)@ + render_items(tail));
    } else {
        proof {
            lemma_size_seq_elem(items@, from as int);
            assert(tail[0] == items@[from as int]);
        }
        items[from].write_into(out);
        if from + 1 == items.len() {
            assert(out@ =~= old(out)@ + render_items(tail));
        } else {
            out.push(44);
            out.push(32);
            write_items(items, from + 1, out);
            proof {
                assert(tail.subrange(1, tail.len() as int) =~= items@.subrange(
                    from + 1,
                    items@.len() as int,
                ));
                assert(out@ =~= old(out)@ + render_items(tail));
            }
        }
    }
}

/// First position at or after `i` that does not hold a digit.
pub open spec fn num_end(s: Seq<u8>, i: int) -> int
    decreases s.len() - i,
{
    if i < 0 || i >= s.len() || !is_digit(s[i]) {
        i
    } else {
        num_end(s, i + 1)
    }
}

proof fn lemma_num_end_props(s: Seq<u8>, i: int)
    requires
        0 <= i <= s.len(),
    ensures
        i <= num_end(s, i) <= s.len(),
        forall|k: int| i <= k < num_end(s, i) ==> is_digit(#[trigger] s[k]),
        num_end(s, i) == s.len() || !is_digit(s[num_end(s, i)]),
    decreases s.len() - i,
{
    if i < s.len() && is_digit(s[i]) {
        lemma_num_end_props(s, i + 1);
    }
}

/// `num_end` is pinned by any digit run with a non-digit (or the end of
/// the text) after it.
proof fn lemma_num_end_exact(s: Seq<u8>, i: int, m: int)
    requires
        0 <= i <= m <= s.len(),
        forall|k: int| i <= k < m ==> is_digit(#[trigger] s[k]),
        m == s.len() || !is_digit(s[m]),
    ensures
        num_end(s, i) == m,
    decreases m - i,
{
    if i < m {
        lemma_num_end_exact(s, i + 1, m);
    }
}

/// Parse one value at position `i`: a bracketed list or a digit run.
/// Returns the parsed shape and the position just past it.  A digit run
/// too large for an `i32` leaf, a stray byte, or an unclosed bracket is a
/// parse error.
pub open spec fn parse_node_at(s: Seq<u8>, i: int) -> Option<(NodeView, int)>
    decreases s.len() - i, 0nat,
{
    if i < 0 || i >= s.len() {
        None
    } else if s[i] == 91 {
        match parse_items_at(s, i + 1) {
            Option::None => None,
            Option::Some((cs, j)) => Some((NodeView::List(cs), j)),
        }
    } else if is_digit(s[i]) {
        let e = num_end(s, i);
        let v = digits_val(s.subrange(i, e));
        if v <= i32::MAX {
            Some((NodeView::Leaf(v), e))
        } else {
            None
        }
    } else {
        None
    }
}

/// Parse list elements up to and past the closing bracket, commas and
/// blanks between them carrying no meaning.
pub open spec fn parse_items_at(s: Seq<u8>, i: int) -> Option<(Seq<NodeView>, int)>
    decreases s.len() - i, 1nat,
{
    if i < 0 || i >= s.len() {
        None
    } else if s[i] == 93 {
        Some((Seq::empty(), i + 1))
    } else if s[i] == 44 || s[i] == 32 {
        parse_items_at(s, i + 1)
    } else {
        match parse_node_at(s, i) {
            Option::None => None,
            Option::Some((n, j)) => if i < j <= s.len() {
                match parse_items_at(s, j) {
                    Option::None => None,
                    Option::Some((cs, k)) => Some((seq![n] + cs, k)),
                }
            } else {
                None
            },
        }
    }
}

/// What a whole input line parses to: the first complete value on it.
pub open spec fn parse_line_spec(s: Seq<u8>) -> Option<NodeView> {
    match parse_node_at(s, 0) {
        Option::None => None,
        Option::Some((n, _)) => Some(n),
    }
}

fn is_digit_byte(b: u8) -> (r: bool)
    ensures
        r == is_digit(b),
{
    48 <= b && b <= 57
}

/// Read the digit run starting at `i` as an `i32`.
fn parse_number(s: &Vec<u8>, i: usize) -> (r: Option<(i32, usize)>)
    requires
        i < s@.len(),
        is_digit(s@[i as int]),
    ensures
        ({
            let e = num_end(s@, i as int);
            let v = digits_val(s@.subrange(i as int, e));
            match r {
                Option::Some((val, j)) => j == e && val == v && 0 <= v <= i32::MAX
                    && i < j <= s@.len(),
                Option::None => v > i32::MAX,
            }
        }),
{
    proof {
        lemma_num_end_props(s@, i as int);
    }
    let ghost e = num_end(s@, i as int);
    let mut j: usize = i;
    let mut val: u64 = 0;
    proof {
        assert(s@.subrange(i as int, i as int) =~= Seq::<u8>::empty());
    }
    while j < s.len() && is_digit_byte(s[j])
        invariant
            i < s@.len(),
            is_digit(s@[i as int]),
            e == num_end(s@, i as int),
            i <= j <= s@.len(),
            j <= e <= s@.len(),
            num_end(s@, j as int) == e,
            forall|k: int| i <= k < e ==> is_digit(#[trigger] s@[k]),
            val == digits_val(s@.subrange(i as int, j as int)),
            0 <= val <= i32::MAX,
        decreases s@.len() - j,
    {
        let d = s[j] - 48;
        let next = val * 10 + d as u64;
        proof {
            lemma_num_end_props(s@, j as int);
            assert(e > j);
            let pre = s@.subrange(i as int, j as int);
            let cur = s@.subrange(i as int, j + 1);
            assert(cur.drop_last() =~= pre);
            assert(cur.last() == s@[j as int]);
            assert(digits_val(cur) == val * 10 + (s@[j as int] - 48));
        }
        if next > i32::MAX as u64 {
            proof {
                let full = s@.subrange(i as int, e);
                assert forall|k2: int| 0 <= k2 < full.len() implies is_digit(
                    #[trigger] full[k2],
                ) by {
                    assert(full[k2] == s@[i + k2]);
                }
                lemma_digits_val_mono(full, j + 1 - i);
                assert(full.subrange(0, j + 1 - i) =~= s@.subrange(i as int, j + 1));
                assert(digits_val(s@.subrange(i as int, j + 1)) == next);
                assert(digits_val(full) >= next);
                assert(digits_val(s@.subrange(i as int, num_end(s@, i as int))) > i32::MAX);
            }
            return None;
        }
        val = next;
        j += 1;
        proof {
            assert(num_end(s@, j as int) == e);
        }
    }
    proof {
        assert(num_end(s@, j as int) == j);
        lemma_num_end_props(s@, i as int);
        assert(i < e);
    }
    Some((val as i32, j))
}

/// Parse one value at position `i`, building the tree.
pub fn parse_node(s: &Vec<u8>, i: usize) -> (r: Option<(Node, usize)>)
    requires
        i <= s@.len(),
    ensures
        ({
            match r {
                Option::Some((n, j)) => parse_node_at(s@, i as int) == Some(
                    (node_view(n), j as int),
                ) && wf_node(n) && i < j <= s@.len(),
                Option::None => parse_node_at(s@, i as int) is None,
            }
        }),
    decreases s@.len() - i, 0nat,
{
    if i >= s.len() {
        return None;
    }
    let b = s[i];
    if b == 91 {
        match parse_list(s, i + 1) {
            Option::None => None,
            Option::Some((cs, j)) => {
                let node = Node { children: cs, value: 0, is_leaf: false };
                Some((node, j))
            },
        }
    } else if is_digit_byte(b) {
        match parse_number(s, i) {
            Option::None => None,
            Option::Some((val, j)) => Some((Node::new_leaf(val), j)),
        }
    } else {
        None
    }
}

/// Parse list elements up to and past the closing bracket.
pub fn parse_list(s: &Vec<u8>, i: usize) -> (r: Option<(Vec<Node>, usize)>)
    requires
        i <= s@.len(),
    ensures
        ({
            match r {
                Option::Some((cs, j)) => parse_items_at(s@, i as int) == Some(
                    (views_of(cs@), j as int),
                ) && (forall|k: int| 0 <= k < cs@.len() ==> wf_node(#[trigger] cs@[k])) && i < j
                    <= s@.len(),
                Option::None => parse_items_at(s@, i as int) is None,
            }
        }),
    decreases s@.len() - i, 1nat,
{
    if i >= s.len() {
        return None;
    }
    let b = s[i];
    if b == 93 {
        Some((Vec::new(), i + 1))
    } else if b == 44 || b == 32 {
        parse_list(s, i + 1)
    } else {
        match parse_node(s, i) {
            Option::None => None,
            Option::Some((n, j)) => {
                match parse_list(s, j) {
                    Option::None => None,
                    Option::Some((cs, k)) => {
                        let mut v = cs;
                        v.insert(0, n);
                        proof {
                            assert(v@ =~= seq![n] + cs@);
                            assert(v@.subrange(1, v@.len() as int) =~= cs@);
                            assert(views_of(v@) == seq![node_view(n)] + views_of(cs@));
                        }
                        Some((v, k))
                    },
                }
            },
        }
    }
}

/// Parse a whole input line: the first complete value on it.
pub fn parse_line(line: &Vec<u8>) -> (r: Option<Node>)
    ensures
        ({
            match r {
                Option::Some(n) => parse_line_spec(line@) == Some(node_view(n)) && wf_node(n),
                Option::None => parse_line_spec(line@) is None,
            }
        }),
{
    match parse_node(line, 0) {
        Option::None => None,
        Option::Some((n, _)) => Some(n),
    }
}

/// Shape of the serialized text: nonempty; a leaf is all digits, a list
/// opens with a bracket.
proof fn lemma_render_shape(n: Node)
    requires
        wf_node(n),
    ensures
        render_node(n).len() >= 1,
        n.is_leaf ==> forall|i: int|
            0 <= i < render_node(n).len() ==> is_digit(#[trigger] render_node(n)[i]),
        !n.is_leaf ==> render_node(n)[0] == 91,
{
    if n.is_leaf {
        lemma_dec_digits(n.value as nat);
    }
}

/// Reparsing serialized text finds exactly the serialized tree, wherever
/// the text stands, as long as no digit follows it directly.
proof fn lemma_parse_render_node(n: Node, s: Seq<u8>, i: int)
    requires
        wf_node(n),
        0 <= i,
        i + render_node(n).len() <= s.len(),
        s.subrange(i, i + render_node(n).len()) == render_node(n),
        i + render_node(n).len() == s.len() || !is_digit(s[i + render_node(n).len()]),
    ensures
        parse_node_at(s, i) == Some((node_view(n), i + render_node(n).len())),
    decreases size(n), 0nat,
{
    let r = render_node(n);
    let len = r.len() as int;
    assert forall|k: int| 0 <= k < len implies s[i + k] == r[k] by {
        assert(s.subrange(i, i + len)[k] == s[i + k]);
    }
    lemma_render_shape(n);
    if n.is_leaf {
        let v = n.value as nat;
        lemma_dec_digits(v);
        assert forall|k: int| i <= k < i + len implies is_digit(#[trigger] s[k]) by {
            assert(s[k] == r[k - i]);
        }
        lemma_num_end_exact(s, i, i + len);
        assert(s.subrange(i, num_end(s, i)) == r);
        assert(digits_val(r) == v);
        assert(is_digit(s[i]));
        assert(s[i] != 91);
    } else {
        assert(s[i] == 91);
        let items = n.children@;
        assert(r == seq![91u8] + render_items(items) + seq![93u8]);
        assert(s.subrange(i + 1, i + 1 + render_items(items).len() + 1) =~= render_items(items)
            + seq![93u8]) by {
            assert forall|k: int|
                0 <= k < render_items(items).len() + 1 implies s.subrange(
                i + 1,
                i + 1 + render_items(items).len() + 1,
            )[k] == (render_items(items) + seq![93u8])[k] by {
                assert(s[i + (k + 1)] == r[k + 1]);
            }
        }
        lemma_parse_render_items(items, s, i + 1);
    }
}

/// Reparsing a serialized child list followed by the closing bracket
/// yields the children's shapes and the position past the bracket.
proof fn lemma_parse_render_items(items: Seq<Node>, s: Seq<u8>, i: int)
    requires
        forall|k: int| 0 <= k < items.len() ==> wf_node(#[trigger] items[k]),
        0 <= i,
        i + render_items(items).len() + 1 <= s.len(),
        s.subrange(i, i + render_items(items).len() + 1) == render_items(items) + seq![93u8],
    ensures
        parse_items_at(s, i) == Some((views_of(items), i + render_items(items).len() + 1)),
    decreases size_seq(items), 1nat,
{
    let body = render_items(items);
    let l = body.len() as int;
    assert forall|k: int| 0 <= k <= l implies s[i + k] == (body + seq![93u8])[k] by {
        assert(s.subrange(i, i + l + 1)[k] == s[i + k]);
    }
    if items.len() == 0 {
        assert(s[i + 0] == (body + seq![93u8])[0]);
        assert(s[i] == 93);
        assert(views_of(items) =~= Seq::<NodeView>::empty());
    } else {
        let c0 = items[0];
        let r0 = render_node(c0);
        let l0 = r0.len() as int;
        lemma_size_seq_elem(items, 0);
        lemma_render_shape(c0);
        if items.len() == 1 {
            assert(body == r0);
            // the element, then the closing bracket
            assert(s.subrange(i, i + l0) =~= r0) by {
                assert forall|k: int| 0 <= k < l0 implies s.subrange(i, i + l0)[k] == r0[k] by {
                    assert(s[i + k] == (body + seq![93u8])[k]);
                }
            }
            assert(s[i + l0] == (body + seq![93u8])[l0]);
            assert(s[i + l0] == 93);
            lemma_parse_render_node(c0, s, i);
            assert(parse_node_at(s, i) == Some((node_view(c0), i + l0)));
            assert(s[i + 0] == (body + seq![93u8])[0]);
            assert(s[i] == r0[0]);
            assert(s[i] != 93 && s[i] != 44 && s[i] != 32);
            assert(parse_items_at(s, i + l0) == Some((Seq::<NodeView>::empty(), i + l0 + 1)));
            assert(views_of(items) =~= seq![node_view(c0)] + Seq::<NodeView>::empty()) by {
                lemma_views_of_len(items);
            }
        } else {
            let rest = items.subrange(1, items.len() as int);
            let lr = render_items(rest).len() as int;
            assert(body == r0 + seq![44u8, 32u8] + render_items(rest));
            assert(s.subrange(i, i + l0) =~= r0) by {
                assert forall|k: int| 0 <= k < l0 implies s.subrange(i, i + l0)[k] == r0[k] by {
                    assert(s[i + k] == (body + seq![93u8])[k]);
                }
            }
            assert(s[i + l0] == (body + seq![93u8])[l0]);
            assert(s[i + l0] == 44);
            assert(s[i + (l0 + 1)] == (body + seq![93u8])[l0 + 1]);
            assert(s[i + l0 + 1] == 32);
            lemma_parse_render_node(c0, s, i);
            assert(s[i + 0] == (body + seq![93u8])[0]);
            assert(s[i] == r0[0]);
            assert(s[i] != 93 && s[i] != 44 && s[i] != 32);
            assert(s.subrange(i + l0 + 2, i + l0 + 2 + lr + 1) =~= render_items(rest) + seq![
                93u8,
            ]) by {
                assert forall|k: int|
                    0 <= k < lr + 1 implies s.subrange(i + l0 + 2, i + l0 + 2 + lr + 1)[k] == (
                render_items(rest) + seq![93u8])[k] by {
                    assert(s[i + (l0 + 2 + k)] == (body + seq![93u8])[l0 + 2 + k]);
                }
            }
            lemma_parse_render_items(rest, s, i + l0 + 2);
            assert(parse_items_at(s, i + l0) == parse_items_at(s, i + l0 + 1));
            assert(parse_items_at(s, i + l0 + 1) == parse_items_at(s, i + l0 + 2));
            assert(views_of(items) =~= seq![node_view(c0)] + views_of(rest)) by {
                lemma_views_of_len(items);
                lemma_views_of_len(rest);
            }
        }
    }
}

/// Serializing a well-formed tree and reparsing the text finds the very
/// same shape back.
pub proof fn lemma_parse_render_round_trip(n: Node)
    requires
        wf_node(n),
    ensures
        parse_line_spec(render_node(n)) == Some(node_view(n)),
{
    let s = render_node(n);
    lemma_render_shape(n);
    assert(s.subrange(0, s.len() as int) =~= s);
    lemma_parse_render_node(n, s, 0);
}

/// Any tree read back from a well-formed tree's serialized text compares
/// `Equal` to the original.
pub proof fn lemma_reparse_compares_equal(n: Node, m: Node)
    requires
        wf_node(n),
        parse_line_spec(render_node(n)) == Some(node_view(m)),
    ensures
        spec_compare(m, n) == Rel::Equal,
{
    lemma_parse_render_round_trip(n);
    lemma_compare_congruent(m, n);
}

/// Whether `left` comes strictly before `right` in the tree order.
pub fn is_in_right_order(left: &Node, right: &Node) -> (r: bool)
    ensures
        r == (spec_compare(*left, *right) == Rel::Less),
{
    let c = left.compare(right);
    matches!(c, Rel::Less)
}

/// Ascending for the tree order: no pair of positions compares `Greater`.
pub open spec fn sorted_by_compare(s: Seq<Node>) -> bool {
    forall|i: int, j: int|
        0 <= i < j < s.len() ==> spec_compare(#[trigger] s[i], #[trigger] s[j]) != Rel::Greater
}

fn is_greater(a: &Node, b: &Node) -> (r: bool)
    ensures
        r == (spec_compare(*a, *b) == Rel::Greater),
{
    let c = a.compare(b);
    matches!(c, Rel::Greater)
}

/// Sort a batch of trees by the comparator (insertion sort): the result is
/// ascending and holds exactly the same trees.
pub fn sort_nodes(nodes: Vec<Node>) -> (r: Vec<Node>)
    ensures
        sorted_by_compare(r@),
        r@.to_multiset() == nodes@.to_multiset(),
        r@.len() == nodes@.len(),
{
    broadcast use vstd::seq_lib::group_to_multiset_ensures;
    broadcast use vstd::multiset::group_multiset_axioms;

    let mut v = nodes;
    let ghost orig = v@;
    if v.len() < 2 {
        return v;
    }
    let mut i: usize = 1;
    while i < v.len()
        invariant
            1 <= i <= v.len(),
            v@.len() == orig.len(),
            v@.to_multiset() == orig.to_multiset(),
            sorted_by_compare(v@.subrange(0, i as int)),
        decreases v.len() - i,
    {
        let ghost before = v@;
        let x = v.remove(i);
        proof {
            vstd::seq_lib::to_multiset_remove(before, i as int);
            assert(before.remove(i as int).to_multiset() == before.to_multiset().remove(x));
        }
        let mut p: usize = 0;
        while p < i && !is_greater(&v[p], &x)
            invariant
                p <= i < before.len(),
                v@ == before.remove(i as int),
                forall|q: int| 0 <= q < p ==> spec_compare(#[trigger] v@[q], x) != Rel::Greater,
            decreases i - p,
        {
            p += 1;
        }
        let ghost mid = v@;
        v.insert(p, x);
        proof {
            vstd::seq_lib::to_multiset_insert(mid, p as int, x);
            assert(mid.insert(p as int, x).to_multiset() == mid.to_multiset().insert(x));
            assert(before.contains(x)) by {
                assert(before[i as int] == x);
            }
            vstd::seq_lib::to_multiset_contains(before, x);
            assert(before.to_multiset().count(x) > 0);
            assert(v@.to_multiset() =~= before.to_multiset());
            // the new prefix is sorted
            let oldpre = before.subrange(0, i as int);
            let newpre = v@.subrange(0, i + 1);
            assert forall|q: int| 0 <= q < i implies mid[q] == oldpre[q] by {
                assert(mid[q] == before[q]);
            }
            assert forall|a: int, b: int|
                0 <= a < b < newpre.len() implies spec_compare(
                #[trigger] newpre[a],
                #[trigger] newpre[b],
            ) != Rel::Greater by {
                assert(newpre[a] == v@[a] && newpre[b] == v@[b]);
                if a < p && b < p {
                    assert(v@[a] == oldpre[a] && v@[b] == oldpre[b]);
                } else if a < p && b == p {
                    assert(v@[a] == mid[a]);
                } else if a == p && b > p {
                    // x goes strictly before the first larger element
                    if p < i {
                        assert(spec_compare(mid[p as int], x) == Rel::Greater);
                        lemma_compare_flip(mid[p as int], x);
                        assert(v@[b] == mid[b - 1] && mid[b - 1] == oldpre[b - 1]);
                        if b - 1 > p {
                            lemma_compare_trans(x, oldpre[p as int], oldpre[b - 1]);
                        }
                    }
                } else if a < p && b > p {
                    assert(v@[a] == oldpre[a] && v@[b] == oldpre[b - 1]);
                } else if a > p && b > p {
                    assert(v@[a] == oldpre[a - 1] && v@[b] == oldpre[b - 1]);
                }
            }
        }
        i += 1;
    }
    proof {
        assert(v@.subrange(0, v@.len() as int) =~= v@);
        if v@.len() == 0 {
        }
    }
    v
}

/// Sum of the one-based indices of the pairs that stand in the right
/// order (left strictly before right).
pub open spec fn spec_right_order_sum(ps: Seq<(Node, Node)>) -> int
    decreases ps.len(),
{
    if ps.len() == 0 {
        0
    } else {
        spec_right_order_sum(ps.drop_last()) + if spec_compare(ps.last().0, ps.last().1)
            == Rel::Less {
            ps.len() as int
        } else {
            0
        }
    }
}

proof fn lemma_right_order_sum_bound(ps: Seq<(Node, Node)>)
    ensures
        0 <= spec_right_order_sum(ps) <= ps.len() * ps.len(),
    decreases ps.len(),
{
    if ps.len() > 0 {
        lemma_right_order_sum_bound(ps.drop_last());
        let n = ps.len() as int;
        assert((n - 1) * (n - 1) + n <= n * n) by (nonlinear_arith)
            requires
                n >= 1,
        ;
    }
}

/// Sum the one-based indices of the pairs in the right order.
pub fn right_order_sum(pairs: &Vec<(Node, Node)>) -> (r: u64)
    requires
        pairs@.len() <= u32::MAX,
    ensures
        r == spec_right_order_sum(pairs@),
{
    let mut sum: u64 = 0;
    let mut i: usize = 0;
    proof {
        assert(pairs@.subrange(0, 0) =~= Seq::<(Node, Node)>::empty());
    }
    while i < pairs.len()
        invariant
            i <= pairs@.len() <= u32::MAX,
            sum == spec_right_order_sum(pairs@.subrange(0, i as int)),
            0 <= sum <= i * i,
        decreases pairs@.len() - i,
    {
        proof {
            lemma_right_order_sum_bound(pairs@.subrange(0, i + 1));
            assert(pairs@.subrange(0, i + 1).drop_last() =~= pairs@.subrange(0, i as int));
            assert(pairs@.subrange(0, i + 1).last() == pairs@[i as int]);
            assert((i + 1) * (i + 1) <= u32::MAX * u32::MAX) by (nonlinear_arith)
                requires
                    0 <= i + 1 <= u32::MAX,
            ;
        }
        if is_in_right_order(&pairs[i].0, &pairs[i].1) {
            sum = sum + (i as u64) + 1;
        }
        i += 1;
    }
    proof {
        assert(pairs@.subrange(0, pairs@.len() as int) =~= pairs@);
    }
    sum
}

/// The serialized text of a divider tree `[[v]]`.
pub open spec fn divider_text(v: nat) -> Seq<u8> {
    seq![91u8, 91u8] + dec_digits(v) + seq![93u8, 93u8]
}

/// Position of the last tree in `s` whose serialized text is `target`,
/// `-1` when there is none.
pub open spec fn find_last_render(s: Seq<Node>, target: Seq<u8>) -> int
    decreases s.len(),
{
    if s.len() == 0 {
        -1
    } else if render_node(s.last()) == target {
        s.len() - 1
    } else {
        find_last_render(s.drop_last(), target)
    }
}

/// The divider tree `[[v]]`.
pub fn make_divider(v: i32) -> (r: Node)
    requires
        v >= 0,
    ensures
        wf_node(r),
        render_node(r) == divider_text(v as nat),
        !r.is_leaf,
{
    let leaf = Node::new_leaf(v);
    let mut inner = Node::new();
    inner.add_child(leaf);
    let mut outer = Node::new();
    outer.add_child(inner);
    proof {
        let li = outer.children@[0];
        assert(outer.children@ =~= seq![li]);
        assert(li.children@ =~= seq![leaf]);
        assert(render_items(li.children@) == render_node(leaf));
        assert(render_node(leaf) == dec_digits(v as nat));
        assert(render_items(outer.children@) == render_node(li));
        assert(render_node(li) == seq![91u8] + dec_digits(v as nat) + seq![93u8]);
        assert(render_node(outer) == seq![91u8] + render_items(outer.children@) + seq![93u8]);
        assert(render_node(outer) =~= divider_text(v as nat));
        assert(wf_node(leaf));
        assert forall|j: int| 0 <= j < li.children@.len() implies wf_node(
            #[trigger] li.children@[j],
        ) by {
            assert(li.children@[j] == leaf);
        }
        assert(wf_node(li));
        assert forall|i: int| 0 <= i < outer.children@.len() implies wf_node(
            #[trigger] outer.children@[i],
        ) by {
            assert(outer.children@[i] == li);
        }
    }
    outer
}

/// Byte-wise equality of two buffers.
pub fn bytes_eq(a: &Vec<u8>, b: &Vec<u8>) -> (r: bool)
    ensures
        r == (a@ == b@),
{
    if a.len() != b.len() {
        return false;
    }
    let mut i: usize = 0;
    while i < a.len()
        invariant
            i <= a@.len(),
            a@.len() == b@.len(),
            forall|k: int| 0 <= k < i ==> a@[k] == b@[k],
        decreases a@.len() - i,
    {
        if a[i] != b[i] {
            return false;
        }
        i += 1;
    }
    proof {
        assert(a@ =~= b@);
    }
    true
}

/// Product of the one-based positions of the last trees serializing to
/// the two divider texts, in an already sorted batch.
pub fn divider_positions_product(sorted: &Vec<Node>, d1: i32, d2: i32) -> (r: u64)
    requires
        sorted@.len() <= u32::MAX,
        d1 >= 0,
        d2 >= 0,
        forall|k: int| 0 <= k < sorted@.len() ==> wf_node(#[trigger] sorted@[k]),
    ensures
        r == (find_last_render(sorted@, divider_text(d1 as nat)) + 1) * (find_last_render(
            sorted@,
            divider_text(d2 as nat),
        ) + 1),
{
    let t1 = make_divider(d1).to_bytes();
    let t2 = make_divider(d2).to_bytes();
    let mut idx1: u64 = 0;
    let mut idx2: u64 = 0;
    let mut i: usize = 0;
    proof {
        assert(sorted@.subrange(0, 0) =~= Seq::<Node>::empty());
    }
    while i < sorted.len()
        invariant
            i <= sorted@.len() <= u32::MAX,
            t1@ == divider_text(d1 as nat),
            t2@ == divider_text(d2 as nat),
            forall|k: int| 0 <= k < sorted@.len() ==> wf_node(#[trigger] sorted@[k]),
            idx1 == find_last_render(sorted@.subrange(0, i as int), t1@) + 1,
            idx2 == find_last_render(sorted@.subrange(0, i as int), t2@) + 1,
            idx1 <= i && idx2 <= i,
        decreases sorted@.len() - i,
    {
        let text = sorted[i].to_bytes();
        proof {
            assert(sorted@.subrange(0, i + 1).drop_last() =~= sorted@.subrange(0, i as int));
            assert(sorted@.subrange(0, i + 1).last() == sorted@[i as int]);
        }
        if bytes_eq(&text, &t1) {
            idx1 = i as u64 + 1;
        }
        if bytes_eq(&text, &t2) {
            idx2 = i as u64 + 1;
        }
        i += 1;
    }
    proof {
        assert(sorted@.subrange(0, sorted@.len() as int) =~= sorted@);
        assert(idx1 * idx2 <= u32::MAX * u32::MAX < u64::MAX) by (nonlinear_arith)
            requires
                0 <= idx1 <= u32::MAX,
                0 <= idx2 <= u32::MAX,
        ;
    }
    idx1 * idx2
}

} // verus!
