use vstd::prelude::*;
use crate::error::DocumentError;

verus! {

/// How deep `get_page_references` lets the page tree nest.
pub const PAGE_TREE_DEPTH: usize = 16;

/// The identity of an object in a document: its number and generation.
#[derive(Debug, Clone, Copy, PartialEq, Eq, Structural)]
pub struct ObjectRef {
    pub id: u64,
    pub generation: u64,
}

/// A node of a page tree: a page, or an inner node with its kids in order.
#[derive(Debug)]
pub enum PageNode {
    Leaf(ObjectRef),
    Tree(Vec<PageNode>),
}

/// The pages under `n` in depth-first order, or `None` where an inner node
/// is reached with no depth left.
pub open spec fn node_leaves(n: PageNode, depth: nat) -> Option<Seq<ObjectRef>>
    decreases n, 1nat, 0nat,
{
    match n {
        PageNode::Leaf(r) => Some(seq![r]),
        PageNode::Tree(kids) => if depth == 0 {
            None
        } else {
            kids_leaves(n, (depth - 1) as nat, kids.len() as nat)
        },
    }
}

/// The pages under the first `k` kids of the inner node `n`, each kid given `depth`.
pub open spec fn kids_leaves(n: PageNode, depth: nat, k: nat) -> Option<Seq<ObjectRef>>
    decreases n, 0nat, k,
{
    match n {
        PageNode::Leaf(_) => None,
        PageNode::Tree(kids) => if k == 0 || k > kids.len() {
            if k == 0 { Some(Seq::empty()) } else { None }
        } else {
            match kids_leaves(n, depth, (k - 1) as nat) {
                None => None,
                Some(p) => match node_leaves(kids[k - 1], depth) {
                    None => None,
                    Some(q) => Some(p + q),
                },
            }
        },
    }
}

/// How many inner nodes nest along the deepest path from `n` (0 for a page).
pub open spec fn inner_depth(n: PageNode) -> nat
    decreases n, 1nat, 0nat,
{
    match n {
        PageNode::Leaf(_) => 0,
        PageNode::Tree(kids) => 1 + kids_depth(n, kids.len() as nat),
    }
}

/// The greatest `inner_depth` among the first `k` kids of the inner node `n`.
pub open spec fn kids_depth(n: PageNode, k: nat) -> nat
    decreases n, 0nat, k,
{
    match n {
        PageNode::Leaf(_) => 0,
        PageNode::Tree(kids) => if k == 0 || k > kids.len() {
            0
        } else {
            let a = kids_depth(n, (k - 1) as nat);
            let b = inner_depth(kids[k - 1]);
            if a >= b {
                a
            } else {
                b
            }
        },
    }
}

proof fn lemma_kids_too_deep(n: PageNode, depth: nat, k: nat)
    requires
        n is Tree,
        k <= n->Tree_0.len(),
    ensures
        kids_leaves(n, depth, k) is None <==> kids_depth(n, k) > depth,
    decreases n, 0nat, k,
{
    if k > 0 {
        let kids = n->Tree_0;
        assert(decreases_to!(n => kids[k - 1]));
        lemma_kids_too_deep(n, depth, (k - 1) as nat);
        lemma_node_too_deep(kids[k - 1], depth);
    }
}

/// A node fails exactly when more inner nodes nest under it, itself
/// included, than the depth allows.
pub proof fn lemma_node_too_deep(n: PageNode, depth: nat)
    ensures
        node_leaves(n, depth) is None <==> inner_depth(n) > depth,
    decreases n, 1nat, 0nat,
{
    if let PageNode::Tree(kids) = n {
        if depth > 0 {
            lemma_kids_too_deep(n, (depth - 1) as nat, kids.len() as nat);
        }
    }
}

/// The page list fails with `TreeTooDeep` exactly when more than
/// `PAGE_TREE_DEPTH` inner nodes nest along some path from the root.
pub proof fn lemma_page_tree_too_deep(root: PageNode)
    ensures
        node_leaves(root, PAGE_TREE_DEPTH as nat) is None <==> inner_depth(root) > PAGE_TREE_DEPTH,
{
    lemma_node_too_deep(root, PAGE_TREE_DEPTH as nat);
}

proof fn lemma_kids_fail_onwards(n: PageNode, depth: nat, i: nat, k: nat)
    requires
        n is Tree,
        kids_leaves(n, depth, i) is None,
        i <= k <= n->Tree_0.len(),
    ensures
        kids_leaves(n, depth, k) is None,
    decreases k - i,
{
    if i < k {
        lemma_kids_fail_onwards(n, depth, i, (k - 1) as nat);
    }
}

/// Appends the pages under `node` to `page_refs` in document order. An inner
/// node met with `depth` zero fails with `TreeTooDeep`; each level down has one less.
pub fn collect_page_references(node: &PageNode, page_refs: &mut Vec<ObjectRef>, depth: usize) -> (r:
    Result<(), DocumentError>)
    ensures
        match node_leaves(*node, depth as nat) {
            Some(l) => r is Ok && final(page_refs)@ == old(page_refs)@ + l,
            None => r == Err::<(), DocumentError>(DocumentError::TreeTooDeep),
        },
        depth == 0 && node is Tree ==> final(page_refs)@ == old(page_refs)@,
    decreases node,
{
    match node {
        PageNode::Leaf(r) => {
            page_refs.push(*r);
            Ok(())
        },
        PageNode::Tree(kids) => {
            if depth == 0 {
                return Err(DocumentError::TreeTooDeep);
            }
            let ghost start = page_refs@;
            let mut i: usize = 0;
            while i < kids.len()
                invariant
                    i <= kids.len(),
                    depth > 0,
                    *node == PageNode::Tree(*kids),
                    kids_leaves(*node, (depth - 1) as nat, i as nat) matches Some(l) && page_refs@
                        == start + l,
                decreases kids.len() - i,
            {
                let ghost before = page_refs@;
                assert(decreases_to!(*node => kids[i as int]));
                let res = collect_page_references(&kids[i], page_refs, depth - 1);
                if res.is_err() {
                    proof {
                        lemma_kids_fail_onwards(*node, (depth - 1) as nat, (i + 1) as nat, kids.len() as nat);
                    }
                    return Err(DocumentError::TreeTooDeep);
                }
                i = i + 1;
                proof {
                    let p = kids_leaves(*node, (depth - 1) as nat, (i - 1) as nat)->Some_0;
                    let q = node_leaves(kids[i - 1], (depth - 1) as nat)->Some_0;
                    assert(page_refs@ =~= start + (p + q));
                }
            }
            Ok(())
        },
    }
}

/// The pages of a document in reading order; their positions are the page indices.
pub fn get_page_references(root: &PageNode) -> (r: Result<Vec<ObjectRef>, DocumentError>)
    ensures
        match node_leaves(*root, PAGE_TREE_DEPTH as nat) {
            Some(l) => r matches Ok(v) && v@ == l,
            None => r == Err::<Vec<ObjectRef>, DocumentError>(DocumentError::TreeTooDeep),
        },
{
    let mut page_refs: Vec<ObjectRef> = Vec::new();
    match collect_page_references(root, &mut page_refs, PAGE_TREE_DEPTH) {
        Ok(()) => {
            assert(page_refs@ =~= node_leaves(*root, PAGE_TREE_DEPTH as nat)->Some_0);
            Ok(page_refs)
        },
        Err(e) => Err(e),
    }
}

/// How many entries the top-level outline list may have.
pub const OUTLINE_LIMIT: usize = 65536;

/// Decides whether the walk along the outline list may go on to the entry
/// `next`, having visited `visited`: an entry met again, or more entries
/// than `OUTLINE_LIMIT`, means the list does not end, and the walk fails
/// with `OutlineTooLong`.
pub fn outline_next(visited: &Vec<ObjectRef>, next: ObjectRef) -> (r: Result<(), DocumentError>)
    ensures
        r is Ok <==> visited@.len() < OUTLINE_LIMIT && !visited@.contains(next),
        r matches Err(e) ==> e == DocumentError::OutlineTooLong,
{
    if visited.len() >= OUTLINE_LIMIT {
        return Err(DocumentError::OutlineTooLong);
    }
    match position_of(visited, next) {
        Some(i) => {
            assert(visited@[i as int] == next);
            Err(DocumentError::OutlineTooLong)
        },
        None => {
            assert(!visited@.contains(next));
            Ok(())
        },
    }
}

/// The position of the first occurrence of `x` in `s`.
pub open spec fn index_of(s: Seq<ObjectRef>, x: ObjectRef) -> Option<int> {
    if exists|i: int| 0 <= i < s.len() && s[i] == x {
        Some(choose|i: int| 0 <= i < s.len() && s[i] == x && forall|j: int| 0 <= j < i ==> s[j] != x)
    } else {
        None
    }
}

/// Finds the first position of `x` in `refs`.
pub fn position_of(refs: &Vec<ObjectRef>, x: ObjectRef) -> (r: Option<usize>)
    ensures
        r is None <==> index_of(refs@, x) is None,
        r matches Some(k) ==> index_of(refs@, x) == Some(k as int),
        r matches Some(k) ==> k < refs@.len() && refs@[k as int] == x,
        r is None ==> forall|j: int| 0 <= j < refs@.len() ==> refs@[j] != x,
{
    let mut i: usize = 0;
    while i < refs.len()
        invariant
            i <= refs.len(),
            forall|j: int| 0 <= j < i ==> refs@[j] != x,
        decreases refs.len() - i,
    {
        if refs[i] == x {
            proof {
                let s = refs@;
                let ii = i as int;
                assert(0 <= ii < s.len() && s[ii] == x && forall|j: int| 0 <= j < ii ==> s[j] != x);
                let k = choose|k: int| 0 <= k < s.len() && s[k] == x && forall|j: int| 0 <= j < k ==> s[j] != x;
                assert(k == ii) by {
                    if k < ii {
                        assert(s[k] != x);
                    } else if k > ii {
                        assert(s[ii] != x);
                    }
                }
            }
            return Some(i);
        }
        i = i + 1;
    }
    None
}

} // verus!
