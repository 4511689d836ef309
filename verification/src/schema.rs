use vstd::prelude::*;
use crate::parse::{text_of, Child, Kind, SyntaxNode};
use crate::text::{contains_seq, contains_str};

verus! {

/// The structural children of a node: its nested nodes, in order, with the
/// literal text gaps left out.
pub open spec fn node_children(cs: Seq<Child>) -> Seq<SyntaxNode>
    decreases cs,
{
    if cs.len() == 0 {
        Seq::empty()
    } else {
        match cs[0] {
            Child::Node(m) => seq![m] + node_children(cs.drop_first()),
            Child::Text(_) => node_children(cs.drop_first()),
        }
    }
}

proof fn lemma_node_children_push_node(cs: Seq<Child>, m: SyntaxNode)
    ensures
        node_children(cs.push(Child::Node(m))) == node_children(cs).push(m),
    decreases cs,
{
    if cs.len() == 0 {
        assert(cs.push(Child::Node(m))[0] == Child::Node(m));
        assert(cs.push(Child::Node(m)).drop_first() =~= Seq::<Child>::empty());
        assert(node_children(Seq::<Child>::empty()) == Seq::<SyntaxNode>::empty());
        assert(node_children(cs.push(Child::Node(m))) =~= node_children(cs).push(m));
    } else {
        lemma_node_children_push_node(cs.drop_first(), m);
        assert(cs.push(Child::Node(m)).drop_first() =~= cs.drop_first().push(Child::Node(m)));
        assert(cs.push(Child::Node(m))[0] == cs[0]);
        assert(node_children(cs.push(Child::Node(m))) =~= node_children(cs).push(m));
    }
}

proof fn lemma_node_children_push_text(cs: Seq<Child>, t: String)
    ensures
        node_children(cs.push(Child::Text(t))) == node_children(cs),
    decreases cs,
{
    if cs.len() == 0 {
        assert(cs.push(Child::Text(t))[0] == Child::Text(t));
        assert(cs.push(Child::Text(t)).drop_first() =~= Seq::<Child>::empty());
        assert(node_children(Seq::<Child>::empty()) == Seq::<SyntaxNode>::empty());
        assert(node_children(cs.push(Child::Text(t))) =~= node_children(cs));
    } else {
        lemma_node_children_push_text(cs.drop_first(), t);
        assert(cs.push(Child::Text(t)).drop_first() =~= cs.drop_first().push(Child::Text(t)));
        assert(cs.push(Child::Text(t))[0] == cs[0]);
        assert(node_children(cs.push(Child::Text(t))) =~= node_children(cs));
    }
}

/// A kind-only skeleton of a syntax tree: the node kinds, with all text
/// forgotten.
pub struct Schema {
    pub kind: Kind,
    pub children: Vec<Schema>,
}

/// Whether `s` is the skeleton of `n`: same kind, and the sub-skeletons
/// are, in order, the skeletons of `n`'s structural children.
pub open spec fn schema_of(s: Schema, n: SyntaxNode) -> bool
    decreases s,
{
    &&& s.kind == n.kind
    &&& s.children@.len() == node_children(n.children@).len()
    &&& forall|i: int|
        0 <= i < s.children@.len() ==> schema_of(
            #[trigger] s.children@[i],
            node_children(n.children@)[i],
        )
}

/// Whether the skeleton `s` matches `n`: same kind, and the sub-skeletons
/// match `n`'s structural children pairwise, both exhausted together.
pub open spec fn spec_schema_matches(s: Schema, n: SyntaxNode) -> bool
    decreases s,
{
    &&& s.kind == n.kind
    &&& s.children@.len() == node_children(n.children@).len()
    &&& forall|i: int|
        0 <= i < s.children@.len() ==> spec_schema_matches(
            #[trigger] s.children@[i],
            node_children(n.children@)[i],
        )
}

/// A skeleton is indistinguishable from the tree it was taken of.
pub proof fn lemma_schema_of_matches(s: Schema, n: SyntaxNode)
    requires
        schema_of(s, n),
    ensures
        spec_schema_matches(s, n),
    decreases s,
{
    assert forall|i: int| 0 <= i < s.children@.len() implies spec_schema_matches(
        #[trigger] s.children@[i],
        node_children(n.children@)[i],
    ) by {
        lemma_schema_of_matches(s.children@[i], node_children(n.children@)[i]);
    }
}

/// Collect the structural children of `node` as references, in order.
fn structural_children<'a>(node: &'a SyntaxNode) -> (r: Vec<&'a SyntaxNode>)
    ensures
        r@.len() == node_children(node.children@).len(),
        forall|i: int| 0 <= i < r@.len() ==> *r@[i] == node_children(node.children@)[i],
{
    let mut r: Vec<&SyntaxNode> = Vec::new();
    let mut i: usize = 0;
    while i < node.children.len()
        invariant
            i <= node.children@.len(),
            r@.len() == node_children(node.children@.subrange(0, i as int)).len(),
            forall|j: int|
                0 <= j < r@.len() ==> *r@[j] == node_children(
                    node.children@.subrange(0, i as int),
                )[j],
        decreases node.children@.len() - i,
    {
        let ghost prefix = node.children@.subrange(0, i as int);
        match &node.children[i] {
            Child::Node(m) => {
                r.push(m);
                proof {
                    lemma_node_children_push_node(prefix, *m);
                }
            },
            Child::Text(t) => {
                proof {
                    lemma_node_children_push_text(prefix, *t);
                }
            },
        }
        proof {
            assert(node.children@.subrange(0, i + 1) =~= prefix.push(node.children@[i as int]));
        }
        i += 1;
    }
    proof {
        assert(node.children@.subrange(0, node.children@.len() as int) =~= node.children@);
    }
    r
}

impl Schema {
    /// Take the skeleton of a node.
    pub fn from(node: &SyntaxNode) -> (r: Schema)
        ensures
            schema_of(r, *node),
        decreases *node,
    {
        let subs = structural_children(node);
        let mut children: Vec<Schema> = Vec::new();
        let mut i: usize = 0;
        while i < subs.len()
            invariant
                i <= subs@.len(),
                children@.len() == i,
                subs@.len() == node_children(node.children@).len(),
                forall|j: int|
                    0 <= j < subs@.len() ==> *subs@[j] == node_children(node.children@)[j],
                forall|j: int|
                    0 <= j < i ==> schema_of(
                        #[trigger] children@[j],
                        node_children(node.children@)[j],
                    ),
            decreases subs@.len() - i,
        {
            proof {
                lemma_node_children_decreases(node.children@, i as int);
                let j = choose|j: int|
                    0 <= j < node.children@.len() && #[trigger] node.children@[j] == Child::Node(
                        node_children(node.children@)[i as int],
                    );
                assert(decreases_to!(*node => node.children));
                assert(decreases_to!(node.children => node.children@));
                assert(decreases_to!(node.children@ => node.children@[j]));
                assert(decreases_to!(node.children@[j] => node.children@[j]->Node_0));
                assert(node.children@[j]->Node_0 == *subs@[i as int]);
            }
            let sub = Schema::from(subs[i]);
            children.push(sub);
            i += 1;
        }
        Schema { kind: node.kind, children }
    }

    /// Whether this skeleton matches `node`, kind by kind.
    pub fn matches(&self, node: &SyntaxNode) -> (r: bool)
        ensures
            r == spec_schema_matches(*self, *node),
        decreases *self,
    {
        if self.kind != node.kind {
            return false;
        }
        let subs = structural_children(node);
        if self.children.len() != subs.len() {
            return false;
        }
        let mut i: usize = 0;
        while i < self.children.len()
            invariant
                i <= self.children@.len(),
                self.children@.len() == subs@.len(),
                subs@.len() == node_children(node.children@).len(),
                forall|j: int|
                    0 <= j < subs@.len() ==> *subs@[j] == node_children(node.children@)[j],
                forall|j: int|
                    0 <= j < i ==> spec_schema_matches(
                        #[trigger] self.children@[j],
                        node_children(node.children@)[j],
                    ),
            decreases self.children@.len() - i,
        {
            proof {
                assert(decreases_to!(*self => self.children));
                assert(decreases_to!(self.children => self.children@));
                assert(decreases_to!(self.children@ => self.children@[i as int]));
            }
            if !self.children[i].matches(subs[i]) {
                return false;
            }
            i += 1;
        }
        true
    }
}

/// An element of the structural-children sequence sits inside the child
/// list, so recursing into it terminates.
proof fn lemma_node_children_decreases(cs: Seq<Child>, i: int)
    requires
        0 <= i < node_children(cs).len(),
    ensures
        exists|j: int| 0 <= j < cs.len() && #[trigger] cs[j] == Child::Node(node_children(cs)[i]),
    decreases cs,
{
    if cs.len() > 0 {
        match cs[0] {
            Child::Node(m) => {
                if i == 0 {
                    assert(cs[0] == Child::Node(node_children(cs)[0]));
                } else {
                    lemma_node_children_decreases(cs.drop_first(), i - 1);
                    let j = choose|j: int|
                        0 <= j < cs.drop_first().len() && cs.drop_first()[j] == Child::Node(
                            node_children(cs.drop_first())[i - 1],
                        );
                    assert(cs[j + 1] == Child::Node(node_children(cs)[i]));
                }
            },
            Child::Text(_) => {
                lemma_node_children_decreases(cs.drop_first(), i);
                let j = choose|j: int|
                    0 <= j < cs.drop_first().len() && cs.drop_first()[j] == Child::Node(
                        node_children(cs.drop_first())[i],
                    );
                assert(cs[j + 1] == Child::Node(node_children(cs)[i]));
            },
        }
    }
}

/// What a query names: either a node kind, or a whole skeleton.
pub enum Finder {
    Kind(Kind),
    Schema(Schema),
}

/// Whether the query matches `n`: its kind, or its whole skeleton.
pub open spec fn spec_finder_matches(f: Finder, n: SyntaxNode) -> bool {
    match f {
        Finder::Kind(k) => n.kind == k,
        Finder::Schema(s) => spec_schema_matches(s, n),
    }
}

impl Finder {
    /// Whether this query matches `node`.
    pub fn matches(&self, node: &SyntaxNode) -> (r: bool)
        ensures
            r == spec_finder_matches(*self, *node),
    {
        match self {
            Finder::Kind(k) => node.kind == *k,
            Finder::Schema(s) => s.matches(node),
        }
    }
}

/// The node `find_example` returns: where the text of `n` contains `ex`,
/// the found node of the first structural child whose text contains it,
/// and `n` itself where no child's does.
pub open spec fn spec_find_example(n: SyntaxNode, ex: Seq<char>) -> Option<SyntaxNode>
    decreases n, 0int,
{
    if contains_seq(text_of(n), ex) {
        match find_example_children(n.children@, ex) {
            Option::Some(m) => Option::Some(m),
            Option::None => Option::Some(n),
        }
    } else {
        Option::None
    }
}

pub open spec fn find_example_children(cs: Seq<Child>, ex: Seq<char>) -> Option<SyntaxNode>
    decreases cs, 1int,
{
    if cs.len() == 0 {
        Option::None
    } else {
        match cs[0] {
            Child::Node(m) => if spec_find_example(m, ex) is Some {
                spec_find_example(m, ex)
            } else {
                find_example_children(cs.drop_first(), ex)
            },
            Child::Text(_) => find_example_children(cs.drop_first(), ex),
        }
    }
}

/// The smallest node along the leftmost containing path whose text holds
/// `ex`: the unit an example fragment denotes inside a larger context.
pub fn find_example<'a>(node: &'a SyntaxNode, ex: &str) -> (r: Option<&'a SyntaxNode>)
    ensures
        match r {
            Option::Some(m) => spec_find_example(*node, ex@) == Option::Some(*m),
            Option::None => spec_find_example(*node, ex@) is None,
        },
    decreases *node, 0int,
{
    let text = node.text();
    if !contains_str(text.as_str(), ex) {
        return None;
    }
    let ghost cs = node.children@;
    proof {
        assert(cs.skip(0) =~= cs);
    }
    let mut i: usize = 0;
    while i < node.children.len()
        invariant
            i <= node.children@.len(),
            cs == node.children@,
            contains_seq(text_of(*node), ex@),
            find_example_children(cs, ex@) == find_example_children(cs.skip(i as int), ex@),
        decreases node.children@.len() - i,
    {
        proof {
            assert(cs.skip(i as int)[0] == cs[i as int]);
        }
        match &node.children[i] {
            Child::Node(m) => {
                proof {
                    assert(decreases_to!(*node => node.children));
                    assert(decreases_to!(node.children => node.children@));
                    assert(decreases_to!(node.children@ => node.children@[i as int]));
                }
                match find_example(m, ex) {
                    Some(found) => {
                        proof {
                            assert(find_example_children(cs.skip(i as int), ex@)
                                == Option::Some(*found));
                            assert(spec_find_example(*node, ex@) == Option::Some(*found));
                        }
                        return Some(found);
                    },
                    None => {
                        proof {
                            assert(cs.skip(i as int).drop_first() =~= cs.skip(i + 1));
                        }
                    },
                }
            },
            Child::Text(_) => {
                proof {
                    assert(cs.skip(i as int).drop_first() =~= cs.skip(i + 1));
                }
            },
        }
        i += 1;
    }
    proof {
        assert(cs.skip(i as int).len() == 0);
    }
    Some(node)
}

} // verus!
