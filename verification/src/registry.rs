//! Height-balanced indexed package store.
//!
//! Records are kept in a binary search tree ordered lexicographically by
//! `package_id`, rebalanced after every insert so that at each node the
//! heights of the two subtrees differ by at most one. The store's abstract
//! view is a map from key to record payload; insertion rejects an already
//! present key with `DuplicateKey`, preserving the published record.

use crate::fault::FaultState;
use crate::keys::{
    lemma_lex_lt_irreflexive, lemma_lex_lt_transitive, lemma_lex_lt_trichotomy, lex_lt, str_eq,
    str_lt,
};
use crate::observer::ObserverId;
use crate::version::{SemverX, VersionState};
use vstd::prelude::*;

verus! {

/// Access tier of a registry endpoint.
#[derive(Debug, Clone, Copy, PartialEq, Eq, Structural)]
pub enum AccessTier {
    Live,
    Local,
    Remote,
}

/// Access level of a package.
#[derive(Debug, Clone, Copy, PartialEq, Eq, Structural)]
pub enum AccessLevel {
    Public,
    Protected,
    Private,
}

/// Descriptive package metadata, opaque to the index.
#[derive(Debug, Clone)]
pub struct PackageMetadata {
    pub name: String,
    pub description: String,
    pub author: String,
    pub license: String,
    pub tarball_url: String,
    pub install_script: Option<String>,
}

/// Version constraint on a dependency.
#[derive(Debug, Clone)]
pub struct VersionRange {
    pub min: SemverX,
    pub max: Option<SemverX>,
    pub allowed_states: Vec<VersionState>,
}

/// One outgoing "depends on" edge of a record.
#[derive(Debug, Clone)]
pub struct DependencyEdge {
    pub target_id: String,
    pub version_range: VersionRange,
    pub optional: bool,
}

/// A stored package record, doubling as a node of the balanced index.
pub struct RegistryNode {
    pub package_id: String,
    pub version: SemverX,
    pub metadata: PackageMetadata,
    pub left: Option<Box<RegistryNode>>,
    pub right: Option<Box<RegistryNode>>,
    pub height: usize,
    pub dependencies: Vec<DependencyEdge>,
    pub dependents: Vec<String>,
    pub access_tier: AccessTier,
    pub access_level: AccessLevel,
    pub observers: Vec<ObserverId>,
    pub last_update: u64,
    pub update_count: u32,
    pub fault_state: FaultState,
    pub checksum: String,
}

pub open spec fn maxi(a: int, b: int) -> int {
    if a >= b {
        a
    } else {
        b
    }
}

/// A record stripped of its structural fields: what the index stores under
/// the record's key, independent of the tree's current shape.
pub open spec fn payload(n: RegistryNode) -> RegistryNode {
    RegistryNode {
        package_id: n.package_id,
        version: n.version,
        metadata: n.metadata,
        left: None,
        right: None,
        height: 1,
        dependencies: n.dependencies,
        dependents: n.dependents,
        access_tier: n.access_tier,
        access_level: n.access_level,
        observers: n.observers,
        last_update: n.last_update,
        update_count: n.update_count,
        fault_state: n.fault_state,
        checksum: n.checksum,
    }
}

pub open spec fn sub_height(t: Option<Box<RegistryNode>>) -> int
    decreases t,
{
    match t {
        None => 0,
        Some(n) => 1 + maxi(sub_height(n.left), sub_height(n.right)),
    }
}

/// Height a node's own subtree would report: one more than its taller child.
pub open spec fn node_height(n: RegistryNode) -> int {
    1 + maxi(sub_height(n.left), sub_height(n.right))
}

pub open spec fn sub_as_map(t: Option<Box<RegistryNode>>) -> Map<Seq<char>, RegistryNode>
    decreases t,
{
    match t {
        None => Map::empty(),
        Some(n) => node_as_map(*n),
    }
}

/// The map a subtree represents: key to record payload.
pub open spec fn node_as_map(n: RegistryNode) -> Map<Seq<char>, RegistryNode>
    decreases n,
{
    sub_as_map(n.left).union_prefer_right(sub_as_map(n.right)).insert(n.package_id@, payload(n))
}

/// Every stored `height` field in the subtree is the true subtree height.
pub open spec fn sub_heights_ok(t: Option<Box<RegistryNode>>) -> bool
    decreases t,
{
    match t {
        None => true,
        Some(n) => node_heights_ok(*n),
    }
}

pub open spec fn node_heights_ok(n: RegistryNode) -> bool
    decreases n,
{
    &&& n.height == node_height(n)
    &&& sub_heights_ok(n.left)
    &&& sub_heights_ok(n.right)
}

/// The stored height at the root of `t` is the true height of `t`.
pub open spec fn root_height_ok(t: Option<Box<RegistryNode>>) -> bool {
    match t {
        None => true,
        Some(n) => n.height == sub_height(t),
    }
}

/// Search-tree order: every key left of a node is strictly below the node's
/// key, every key right of it strictly above, lexicographically.
pub open spec fn sub_bst(t: Option<Box<RegistryNode>>) -> bool
    decreases t,
{
    match t {
        None => true,
        Some(n) => node_bst(*n),
    }
}

pub open spec fn node_bst(n: RegistryNode) -> bool
    decreases n,
{
    &&& (forall|k: Seq<char>|
        sub_as_map(n.left).dom().contains(k) ==> lex_lt(k, n.package_id@))
    &&& (forall|k: Seq<char>|
        sub_as_map(n.right).dom().contains(k) ==> lex_lt(n.package_id@, k))
    &&& sub_bst(n.left)
    &&& sub_bst(n.right)
}

/// Height balance: at every node the two subtree heights differ by at most
/// one.
pub open spec fn sub_balanced(t: Option<Box<RegistryNode>>) -> bool
    decreases t,
{
    match t {
        None => true,
        Some(n) => node_balanced(*n),
    }
}

pub open spec fn node_balanced(n: RegistryNode) -> bool
    decreases n,
{
    &&& sub_height(n.left) - sub_height(n.right) <= 1
    &&& sub_height(n.right) - sub_height(n.left) <= 1
    &&& sub_balanced(n.left)
    &&& sub_balanced(n.right)
}

/// Well-formed subtree: correct cached heights, search-tree order, and
/// height balance.
pub open spec fn sub_wf(t: Option<Box<RegistryNode>>) -> bool {
    sub_heights_ok(t) && sub_bst(t) && sub_balanced(t)
}

pub open spec fn node_wf(n: RegistryNode) -> bool {
    node_heights_ok(n) && node_bst(n) && node_balanced(n)
}

/// In-order key sequence of a subtree.
pub open spec fn sub_in_order(t: Option<Box<RegistryNode>>) -> Seq<Seq<char>>
    decreases t,
{
    match t {
        None => Seq::empty(),
        Some(n) => sub_in_order(n.left) + seq![n.package_id@] + sub_in_order(n.right),
    }
}

pub open spec fn strictly_sorted(s: Seq<Seq<char>>) -> bool {
    forall|i: int, j: int| 0 <= i < j < s.len() ==> lex_lt(s[i], s[j])
}

/// The in-order key sequence lists exactly the keys of the subtree's map.
pub proof fn lemma_in_order_is_dom(t: Option<Box<RegistryNode>>)
    ensures
        forall|k: Seq<char>|
            #[trigger] sub_in_order(t).contains(k) <==> sub_as_map(t).dom().contains(k),
    decreases t,
{
    match t {
        None => {
            assert(forall|k: Seq<char>| !sub_in_order(t).contains(k));
        },
        Some(n) => {
            lemma_in_order_is_dom(n.left);
            lemma_in_order_is_dom(n.right);
            let lo = sub_in_order(n.left);
            let ro = sub_in_order(n.right);
            let whole = sub_in_order(t);
            assert(whole == lo + seq![n.package_id@] + ro);
            assert forall|k: Seq<char>| #[trigger]
                whole.contains(k) implies sub_as_map(t).dom().contains(k) by {
                let i = choose|i: int| 0 <= i < whole.len() && whole[i] == k;
                if i < lo.len() {
                    assert(lo[i] == k);
                    assert(lo.contains(k));
                } else if i == lo.len() {
                    assert(k == n.package_id@);
                } else {
                    assert(ro[i - lo.len() - 1] == k);
                    assert(ro.contains(k));
                }
            }
            assert forall|k: Seq<char>|
                sub_as_map(t).dom().contains(k) implies #[trigger] whole.contains(k) by {
                if k == n.package_id@ {
                    assert(whole[lo.len() as int] == k);
                } else if sub_as_map(n.left).dom().contains(k) {
                    assert(lo.contains(k));
                    let i = choose|i: int| 0 <= i < lo.len() && lo[i] == k;
                    assert(whole[i] == k);
                } else {
                    assert(sub_as_map(n.right).dom().contains(k));
                    assert(ro.contains(k));
                    let i = choose|i: int| 0 <= i < ro.len() && ro[i] == k;
                    assert(whole[i + lo.len() + 1] == k);
                }
            }
        },
    }
}

/// In a well-ordered tree the in-order traversal of the keys is strictly
/// increasing: the search-tree order yields the sorted publish index.
pub proof fn lemma_bst_in_order_sorted(t: Option<Box<RegistryNode>>)
    requires
        sub_bst(t),
    ensures
        strictly_sorted(sub_in_order(t)),
    decreases t,
{
    match t {
        None => {},
        Some(n) => {
            lemma_bst_in_order_sorted(n.left);
            lemma_bst_in_order_sorted(n.right);
            lemma_in_order_is_dom(n.left);
            lemma_in_order_is_dom(n.right);
            let lo = sub_in_order(n.left);
            let ro = sub_in_order(n.right);
            let whole = sub_in_order(t);
            assert forall|i: int, j: int|
                0 <= i < j < whole.len() implies lex_lt(whole[i], whole[j]) by {
                let nl = lo.len() as int;
                if j < nl {
                    assert(lex_lt(lo[i], lo[j]));
                } else if i < nl && j == nl {
                    assert(lo.contains(lo[i]));
                    assert(lex_lt(whole[i], n.package_id@));
                } else if i < nl && j > nl {
                    assert(lo.contains(lo[i]));
                    assert(ro.contains(ro[j - nl - 1]));
                    assert(lex_lt(whole[i], n.package_id@));
                    assert(lex_lt(n.package_id@, whole[j]));
                    lemma_lex_lt_transitive(whole[i], n.package_id@, whole[j]);
                } else if i == nl {
                    assert(ro.contains(ro[j - nl - 1]));
                    assert(lex_lt(n.package_id@, whole[j]));
                } else {
                    assert(lex_lt(ro[i - nl - 1], ro[j - nl - 1]));
                }
            }
        },
    }
}

impl RegistryNode {
    /// A fresh, not yet linked record: no children, height one, fault state
    /// `Clean`, no dependencies, dependents or observers, zero update count
    /// and an unset update time and checksum.
    pub fn new(
        package_id: String,
        version: SemverX,
        metadata: PackageMetadata,
        access_tier: AccessTier,
        access_level: AccessLevel,
    ) -> (r: Self)
        ensures
            r.package_id == package_id,
            r.version == version,
            r.metadata == metadata,
            r.left is None,
            r.right is None,
            r.height == 1,
            r.dependencies@ =~= Seq::<DependencyEdge>::empty(),
            r.dependents@ =~= Seq::<String>::empty(),
            r.access_tier == access_tier,
            r.access_level == access_level,
            r.observers@ =~= Seq::<ObserverId>::empty(),
            r.last_update == 0,
            r.update_count == 0,
            r.fault_state == FaultState::Clean,
            r.checksum@ =~= Seq::<char>::empty(),
            node_wf(r),
    {
        RegistryNode {
            package_id,
            version,
            metadata,
            left: None,
            right: None,
            height: 1,
            dependencies: Vec::new(),
            dependents: Vec::new(),
            access_tier,
            access_level,
            observers: Vec::new(),
            last_update: 0,
            update_count: 0,
            fault_state: FaultState::Clean,
            checksum: String::new(),
        }
    }
}

fn height_of(node: &Option<Box<RegistryNode>>) -> (r: usize)
    requires
        root_height_ok(*node),
    ensures
        r == sub_height(*node),
{
    match node {
        None => 0,
        Some(n) => n.height,
    }
}

fn update_height(n: &mut Box<RegistryNode>)
    requires
        root_height_ok(old(n).left),
        root_height_ok(old(n).right),
        node_height(**old(n)) <= usize::MAX,
    ensures
        *final(n) == (RegistryNode { height: node_height(**old(n)) as usize, ..**old(n) }),
{
    let hl = height_of(&n.left);
    let hr = height_of(&n.right);
    n.height = 1 + if hl >= hr {
        hl
    } else {
        hr
    };
}

fn rotate_right(mut n: Box<RegistryNode>) -> (r: Box<RegistryNode>)
    requires
        n.left is Some,
        node_bst(*n),
        sub_heights_ok(n.left.unwrap().left),
        sub_heights_ok(n.left.unwrap().right),
        sub_heights_ok(n.right),
        sub_height(n.left.unwrap().left) <= usize::MAX - 2,
        sub_height(n.left.unwrap().right) <= usize::MAX - 2,
        sub_height(n.right) <= usize::MAX - 2,
    ensures
        payload(*r) == payload(*n.left.unwrap()),
        r.left == n.left.unwrap().left,
        r.right is Some,
        payload(*r.right.unwrap()) == payload(*n),
        r.right.unwrap().left == n.left.unwrap().right,
        r.right.unwrap().right == n.right,
        r.right.unwrap().height == 1 + maxi(
            sub_height(n.left.unwrap().right),
            sub_height(n.right),
        ),
        r.height == 1 + maxi(sub_height(r.left), sub_height(r.right)),
        node_heights_ok(*r),
        node_bst(*r),
        node_as_map(*r) == node_as_map(*n),
    {
    let ghost n0 = *n;
    let ghost l0 = *n.left.unwrap();
    let mut new_root = n.left.take().unwrap();
    n.left = new_root.right.take();
    update_height(&mut n);
    proof {
        assert(node_as_map(*n) =~= sub_as_map(l0.right).union_prefer_right(
            sub_as_map(n0.right),
        ).insert(n0.package_id@, payload(n0)));
    }
    new_root.right = Some(n);
    update_height(&mut new_root);
    proof {
        let r = *new_root;
        let inner = *r.right.unwrap();
        assert(payload(r) == payload(l0));
        assert(payload(inner) == payload(n0));
        assert(r.package_id@ == l0.package_id@);
        assert(inner.package_id@ == n0.package_id@);
        assert(sub_as_map(n0.left) == node_as_map(l0));
        assert(node_bst(l0));
        assert(node_as_map(l0).dom().contains(l0.package_id@));
        assert(sub_as_map(n0.left).dom().contains(l0.package_id@));
        assert(lex_lt(l0.package_id@, n0.package_id@));
        lemma_lex_lt_trichotomy(l0.package_id@, n0.package_id@);
        lemma_lex_lt_irreflexive(n0.package_id@);
        lemma_lex_lt_irreflexive(l0.package_id@);
        assert(node_heights_ok(inner));
        assert(node_heights_ok(r));
        assert forall|k: Seq<char>|
            sub_as_map(inner.left).dom().contains(k) implies lex_lt(k, inner.package_id@) by {
            assert(sub_as_map(l0.right).dom().contains(k));
            assert(node_as_map(l0).dom().contains(k));
            assert(sub_as_map(n0.left).dom().contains(k));
        }
        assert(node_bst(inner));
        assert forall|k: Seq<char>|
            sub_as_map(r.right).dom().contains(k) implies lex_lt(r.package_id@, k) by {
            assert(node_as_map(inner).dom().contains(k));
            if k == n0.package_id@ {
            } else if sub_as_map(inner.left).dom().contains(k) {
                assert(sub_as_map(l0.right).dom().contains(k));
                assert(lex_lt(l0.package_id@, k));
            } else {
                assert(sub_as_map(n0.right).dom().contains(k));
                assert(lex_lt(n0.package_id@, k));
                lemma_lex_lt_transitive(l0.package_id@, n0.package_id@, k);
            }
        }
        assert(node_bst(r));
        assert(!sub_as_map(l0.left).dom().contains(n0.package_id@)) by {
            if sub_as_map(l0.left).dom().contains(n0.package_id@) {
                assert(node_as_map(l0).dom().contains(n0.package_id@));
                assert(sub_as_map(n0.left).dom().contains(n0.package_id@));
                assert(lex_lt(n0.package_id@, n0.package_id@));
            }
        }
        assert(!sub_as_map(l0.right).dom().contains(n0.package_id@)) by {
            if sub_as_map(l0.right).dom().contains(n0.package_id@) {
                assert(node_as_map(l0).dom().contains(n0.package_id@));
                assert(sub_as_map(n0.left).dom().contains(n0.package_id@));
                assert(lex_lt(n0.package_id@, n0.package_id@));
            }
        }
        assert(!sub_as_map(n0.right).dom().contains(l0.package_id@)) by {
            if sub_as_map(n0.right).dom().contains(l0.package_id@) {
                assert(lex_lt(n0.package_id@, l0.package_id@));
            }
        }
        assert(node_as_map(r) =~= node_as_map(n0));
    }
    new_root
}

fn rotate_left(mut n: Box<RegistryNode>) -> (r: Box<RegistryNode>)
    requires
        n.right is Some,
        node_bst(*n),
        sub_heights_ok(n.right.unwrap().left),
        sub_heights_ok(n.right.unwrap().right),
        sub_heights_ok(n.left),
        sub_height(n.right.unwrap().left) <= usize::MAX - 2,
        sub_height(n.right.unwrap().right) <= usize::MAX - 2,
        sub_height(n.left) <= usize::MAX - 2,
    ensures
        payload(*r) == payload(*n.right.unwrap()),
        r.right == n.right.unwrap().right,
        r.left is Some,
        payload(*r.left.unwrap()) == payload(*n),
        r.left.unwrap().right == n.right.unwrap().left,
        r.left.unwrap().left == n.left,
        r.left.unwrap().height == 1 + maxi(
            sub_height(n.left),
            sub_height(n.right.unwrap().left),
        ),
        r.height == 1 + maxi(sub_height(r.left), sub_height(r.right)),
        node_heights_ok(*r),
        node_bst(*r),
        node_as_map(*r) == node_as_map(*n),
    {
    let ghost n0 = *n;
    let ghost l0 = *n.right.unwrap();
    let mut new_root = n.right.take().unwrap();
    n.right = new_root.left.take();
    update_height(&mut n);
    proof {
        assert(node_as_map(*n) =~= sub_as_map(n0.left).union_prefer_right(
            sub_as_map(l0.left),
        ).insert(n0.package_id@, payload(n0)));
    }
    new_root.left = Some(n);
    update_height(&mut new_root);
    proof {
        let r = *new_root;
        let inner = *r.left.unwrap();
        assert(payload(r) == payload(l0));
        assert(payload(inner) == payload(n0));
        assert(r.package_id@ == l0.package_id@);
        assert(inner.package_id@ == n0.package_id@);
        assert(sub_as_map(n0.right) == node_as_map(l0));
        assert(node_bst(l0));
        assert(node_as_map(l0).dom().contains(l0.package_id@));
        assert(sub_as_map(n0.right).dom().contains(l0.package_id@));
        assert(lex_lt(n0.package_id@, l0.package_id@));
        lemma_lex_lt_trichotomy(n0.package_id@, l0.package_id@);
        lemma_lex_lt_irreflexive(n0.package_id@);
        lemma_lex_lt_irreflexive(l0.package_id@);
        assert(node_heights_ok(inner));
        assert(node_heights_ok(r));
        assert forall|k: Seq<char>|
            sub_as_map(inner.right).dom().contains(k) implies lex_lt(inner.package_id@, k) by {
            assert(sub_as_map(l0.left).dom().contains(k));
            assert(node_as_map(l0).dom().contains(k));
            assert(sub_as_map(n0.right).dom().contains(k));
        }
        assert(node_bst(inner));
        assert forall|k: Seq<char>|
            sub_as_map(r.left).dom().contains(k) implies lex_lt(k, r.package_id@) by {
            assert(node_as_map(inner).dom().contains(k));
            if k == n0.package_id@ {
            } else if sub_as_map(inner.right).dom().contains(k) {
                assert(sub_as_map(l0.left).dom().contains(k));
                assert(lex_lt(k, l0.package_id@));
            } else {
                assert(sub_as_map(n0.left).dom().contains(k));
                assert(lex_lt(k, n0.package_id@));
                lemma_lex_lt_transitive(k, n0.package_id@, l0.package_id@);
            }
        }
        assert(node_bst(r));
        assert(!sub_as_map(l0.right).dom().contains(n0.package_id@)) by {
            if sub_as_map(l0.right).dom().contains(n0.package_id@) {
                assert(node_as_map(l0).dom().contains(n0.package_id@));
                assert(sub_as_map(n0.right).dom().contains(n0.package_id@));
                assert(lex_lt(n0.package_id@, n0.package_id@));
            }
        }
        assert(!sub_as_map(l0.left).dom().contains(n0.package_id@)) by {
            if sub_as_map(l0.left).dom().contains(n0.package_id@) {
                assert(node_as_map(l0).dom().contains(n0.package_id@));
                assert(sub_as_map(n0.right).dom().contains(n0.package_id@));
                assert(lex_lt(n0.package_id@, n0.package_id@));
            }
        }
        assert(!sub_as_map(n0.left).dom().contains(l0.package_id@)) by {
            if sub_as_map(n0.left).dom().contains(l0.package_id@) {
                assert(lex_lt(l0.package_id@, n0.package_id@));
            }
        }
        assert(node_as_map(r) =~= node_as_map(n0));
    }
    new_root
}

#[verifier::rlimit(100)]
fn rebalance(mut n: Box<RegistryNode>) -> (r: Box<RegistryNode>)
    requires
        sub_wf(n.left),
        sub_wf(n.right),
        node_bst(*n),
        sub_height(n.left) - sub_height(n.right) <= 2,
        sub_height(n.right) - sub_height(n.left) <= 2,
        sub_height(n.left) <= usize::MAX - 3,
        sub_height(n.right) <= usize::MAX - 3,
    ensures
        node_wf(*r),
        node_as_map(*r) == node_as_map(*n),
        node_height(*n) - 1 <= node_height(*r) <= node_height(*n),
        sub_height(n.left) - sub_height(n.right) <= 1 && sub_height(n.right) - sub_height(n.left)
            <= 1 ==> node_height(*r) == node_height(*n),
    {
    let ghost n0 = *n;
    update_height(&mut n);
    let hl = height_of(&n.left);
    let hr = height_of(&n.right);
    proof {
        assert(node_bst(*n));
        assert(node_as_map(*n) == node_as_map(n0));
    }
    if hl > hr && hl - hr > 1 {
        proof {
            if n.left is None {
                assert(sub_height(n.left) == 0);
            }
            assert(node_heights_ok(*n.left.unwrap()));
            assert(node_balanced(*n.left.unwrap()));
        }
        let ghost l0 = *n.left.unwrap();
        let ghost ha = sub_height(l0.left);
        let ghost hb = sub_height(l0.right);
        let (llh, lrh) = {
            let lref = n.left.as_ref().unwrap();
            proof {
                if lref.left is Some {
                    assert(node_heights_ok(*lref.left.unwrap()));
                }
                if lref.right is Some {
                    assert(node_heights_ok(*lref.right.unwrap()));
                }
            }
            (height_of(&lref.left), height_of(&lref.right))
        };
        proof {
            assert(llh == ha && lrh == hb);
            assert(hl == 1 + maxi(ha, hb));
            assert(hl == hr + 2);
        }
        if llh >= lrh {
            let r = rotate_right(n);
            proof {
                let inner = *r.right.unwrap();
                assert(inner.left == l0.right && inner.right == n0.right);
                assert(sub_height(inner.left) == hb && sub_height(inner.right) == hr);
                assert(sub_balanced(inner.left) && sub_balanced(inner.right));
                assert(ha == hr + 1 && hb >= hr);
                assert(node_balanced(inner));
                assert(r.left == l0.left && sub_height(r.left) == ha);
                assert(sub_height(r.right) == 1 + maxi(hb, hr as int));
                assert(sub_balanced(r.left));
                assert(node_balanced(*r));
                assert(node_as_map(*r) == node_as_map(n0));
                assert(node_height(*r) == 1 + maxi(ha, 1 + maxi(hb, hr as int)));
                assert(node_height(n0) == 1 + hl);
            }
            r
        } else {
            proof {
                assert(hb == ha + 1);
                if l0.right is None {
                    assert(sub_height(l0.right) == 0);
                }
                assert(node_heights_ok(*l0.right.unwrap()));
                assert(node_balanced(*l0.right.unwrap()));
                assert(node_bst(l0));
            }
            let l = n.left.take().unwrap();
            let ghost b0 = *l.right.unwrap();
            let ghost hb1 = sub_height(b0.left);
            let ghost hb2 = sub_height(b0.right);
            proof {
                assert(hb == 1 + maxi(hb1, hb2));
            }
            let l2 = rotate_left(l);
            proof {
                assert(node_as_map(*l2) == node_as_map(l0));
                assert(node_heights_ok(*l2));
                assert(node_bst(*l2));
                assert(l2.right == b0.right);
                assert(l2.left is Some);
                let il = *l2.left.unwrap();
                assert(il.left == l0.left && il.right == b0.left);
                assert(sub_height(l2.left) == 1 + maxi(ha, hb1));
            }
            n.left = Some(l2);
            proof {
                assert forall|k: Seq<char>|
                    sub_as_map(n.left).dom().contains(k) implies lex_lt(k, n.package_id@) by {
                    assert(node_as_map(l0).dom().contains(k));
                    assert(sub_as_map(n0.left).dom().contains(k));
                }
                assert(node_bst(*n));
            }
            let r = rotate_right(n);
            proof {
                let inner = *r.right.unwrap();
                let lt = *r.left.unwrap();
                assert(lt.left == l0.left && lt.right == b0.left);
                assert(inner.left == b0.right && inner.right == n0.right);
                assert(ha == hr && maxi(hb1, hb2) == hr);
                assert(sub_balanced(lt.left) && sub_balanced(lt.right));
                assert(node_balanced(lt));
                assert(sub_balanced(inner.left) && sub_balanced(inner.right));
                assert(node_balanced(inner));
                assert(sub_height(r.left) == 1 + maxi(ha, hb1));
                assert(sub_height(r.right) == 1 + maxi(hb2, hr as int));
                assert(node_balanced(*r));
                assert(node_as_map(*r) == node_as_map(n0));
                assert(node_height(n0) == 1 + hl);
                assert(node_height(*r) <= node_height(n0));
            }
            r
        }
    } else if hr > hl && hr - hl > 1 {
        proof {
            if n.right is None {
                assert(sub_height(n.right) == 0);
            }
            assert(node_heights_ok(*n.right.unwrap()));
            assert(node_balanced(*n.right.unwrap()));
        }
        let ghost l0 = *n.right.unwrap();
        let ghost ha = sub_height(l0.right);
        let ghost hb = sub_height(l0.left);
        let (rlh, rrh) = {
            let rref = n.right.as_ref().unwrap();
            proof {
                if rref.left is Some {
                    assert(node_heights_ok(*rref.left.unwrap()));
                }
                if rref.right is Some {
                    assert(node_heights_ok(*rref.right.unwrap()));
                }
            }
            (height_of(&rref.left), height_of(&rref.right))
        };
        proof {
            assert(rrh == ha && rlh == hb);
            assert(hr == 1 + maxi(ha, hb));
            assert(hr == hl + 2);
        }
        if rrh >= rlh {
            let r = rotate_left(n);
            proof {
                let inner = *r.left.unwrap();
                assert(inner.right == l0.left && inner.left == n0.left);
                assert(sub_height(inner.right) == hb && sub_height(inner.left) == hl);
                assert(sub_balanced(inner.right) && sub_balanced(inner.left));
                assert(ha == hl + 1 && hb >= hl);
                assert(node_balanced(inner));
                assert(r.right == l0.right && sub_height(r.right) == ha);
                assert(sub_height(r.left) == 1 + maxi(hl as int, hb));
                assert(sub_balanced(r.right));
                assert(node_balanced(*r));
                assert(node_as_map(*r) == node_as_map(n0));
                assert(node_height(*r) == 1 + maxi(1 + maxi(hl as int, hb), ha));
                assert(node_height(n0) == 1 + hr);
            }
            r
        } else {
            proof {
                assert(hb == ha + 1);
                if l0.left is None {
                    assert(sub_height(l0.left) == 0);
                }
                assert(node_heights_ok(*l0.left.unwrap()));
                assert(node_balanced(*l0.left.unwrap()));
                assert(node_bst(l0));
            }
            let l = n.right.take().unwrap();
            let ghost b0 = *l.left.unwrap();
            let ghost hb1 = sub_height(b0.right);
            let ghost hb2 = sub_height(b0.left);
            proof {
                assert(hb == 1 + maxi(hb1, hb2));
            }
            let l2 = rotate_right(l);
            proof {
                assert(node_as_map(*l2) == node_as_map(l0));
                assert(node_heights_ok(*l2));
                assert(node_bst(*l2));
                assert(l2.left == b0.left);
                assert(l2.right is Some);
                let il = *l2.right.unwrap();
                assert(il.right == l0.right && il.left == b0.right);
                assert(sub_height(l2.right) == 1 + maxi(hb1, ha));
            }
            n.right = Some(l2);
            proof {
                assert forall|k: Seq<char>|
                    sub_as_map(n.right).dom().contains(k) implies lex_lt(n.package_id@, k) by {
                    assert(node_as_map(l0).dom().contains(k));
                    assert(sub_as_map(n0.right).dom().contains(k));
                }
                assert(node_bst(*n));
            }
            let r = rotate_left(n);
            proof {
                let inner = *r.left.unwrap();
                let rt = *r.right.unwrap();
                assert(rt.right == l0.right && rt.left == b0.right);
                assert(inner.right == b0.left && inner.left == n0.left);
                assert(ha == hl && maxi(hb1, hb2) == hl);
                assert(sub_balanced(rt.right) && sub_balanced(rt.left));
                assert(node_balanced(rt));
                assert(sub_balanced(inner.right) && sub_balanced(inner.left));
                assert(node_balanced(inner));
                assert(sub_height(r.right) == 1 + maxi(hb1, ha));
                assert(sub_height(r.left) == 1 + maxi(hl as int, hb2));
                assert(node_balanced(*r));
                assert(node_as_map(*r) == node_as_map(n0));
                assert(node_height(n0) == 1 + hr);
                assert(node_height(*r) <= node_height(n0));
            }
            r
        }
    } else {
        proof {
            assert(node_balanced(*n));
            assert(node_heights_ok(*n));
            assert(node_as_map(*n) == node_as_map(n0));
        }
        n
    }
}

fn insert_rec(node: Option<Box<RegistryNode>>, new_node: RegistryNode) -> (r: Box<RegistryNode>)
    requires
        sub_wf(node),
        !sub_as_map(node).dom().contains(new_node.package_id@),
        new_node.left is None,
        new_node.right is None,
        new_node.height == 1,
        sub_height(node) <= usize::MAX - 3,
    ensures
        node_wf(*r),
        node_as_map(*r) == sub_as_map(node).insert(new_node.package_id@, payload(new_node)),
        sub_height(node) <= node_height(*r) <= sub_height(node) + 1,
        1 <= node_height(*r),
    decreases node,
{
    match node {
        None => {
            let r = Box::new(new_node);
            proof {
                assert(node_as_map(*r) =~= sub_as_map(None).insert(
                    new_node.package_id@,
                    payload(new_node),
                ));
            }
            r
        },
        Some(mut cur) => {
            let ghost cur0 = *cur;
            let ghost p = payload(new_node);
            proof {
                assert(node_as_map(cur0).dom().contains(cur0.package_id@));
                lemma_lex_lt_trichotomy(new_node.package_id@, cur0.package_id@);
            }
            let go_left = str_lt(new_node.package_id.as_str(), cur.package_id.as_str());
            if go_left {
                let ghost k = new_node.package_id@;
                let left = cur.left.take();
                let inserted = insert_rec(left, new_node);
                cur.left = Some(inserted);
                proof {
                    assert forall|kk: Seq<char>|
                        sub_as_map(cur.left).dom().contains(kk) implies lex_lt(
                        kk,
                        cur.package_id@,
                    ) by {
                        if kk != k {
                            assert(sub_as_map(cur0.left).dom().contains(kk));
                        }
                    }
                    assert(node_bst(*cur));
                }
                let r = rebalance(cur);
                proof {
                    assert(sub_as_map(node) == node_as_map(cur0));
                    assert(node_as_map(*r) =~= sub_as_map(node).insert(k, p));
                }
                r
            } else {
                let ghost k = new_node.package_id@;
                proof {
                    assert(lex_lt(cur0.package_id@, k));
                }
                let right = cur.right.take();
                let inserted = insert_rec(right, new_node);
                cur.right = Some(inserted);
                proof {
                    assert forall|kk: Seq<char>|
                        sub_as_map(cur.right).dom().contains(kk) implies lex_lt(
                        cur.package_id@,
                        kk,
                    ) by {
                        if kk != k {
                            assert(sub_as_map(cur0.right).dom().contains(kk));
                        }
                    }
                    assert(node_bst(*cur));
                }
                let r = rebalance(cur);
                proof {
                    assert(sub_as_map(node) == node_as_map(cur0));
                    assert(node_as_map(*r) =~= sub_as_map(node).insert(k, p));
                }
                r
            }
        },
    }
}

fn search_rec<'a>(node: &'a Option<Box<RegistryNode>>, package_id: &str) -> (r: Option<
    &'a RegistryNode,
>)
    requires
        sub_bst(*node),
    ensures
        match r {
            Some(found) => sub_as_map(*node).dom().contains(package_id@) && found.package_id@
                == package_id@ && payload(*found) == sub_as_map(*node)[package_id@],
            None => !sub_as_map(*node).dom().contains(package_id@),
        },
    decreases *node,
{
    match node {
        None => None,
        Some(cur) => {
            proof {
                lemma_lex_lt_trichotomy(package_id@, cur.package_id@);
            }
            if str_eq(package_id, cur.package_id.as_str()) {
                Some(cur)
            } else if str_lt(package_id, cur.package_id.as_str()) {
                let r = search_rec(&cur.left, package_id);
                proof {
                    if sub_as_map(*node).dom().contains(package_id@) {
                        if sub_as_map(cur.right).dom().contains(package_id@) {
                            assert(lex_lt(cur.package_id@, package_id@));
                        }
                        assert(sub_as_map(cur.left).dom().contains(package_id@));
                    }
                }
                r
            } else {
                let r = search_rec(&cur.right, package_id);
                proof {
                    if sub_as_map(*node).dom().contains(package_id@) {
                        if sub_as_map(cur.left).dom().contains(package_id@) {
                            assert(lex_lt(package_id@, cur.package_id@));
                        }
                        assert(sub_as_map(cur.right).dom().contains(package_id@));
                    }
                }
                r
            }
        },
    }
}

/// Rejection of an insert whose key is already published.
#[derive(Debug, Clone, Copy, PartialEq, Eq, Structural)]
pub enum RegistryError {
    DuplicateKey,
}

/// The balanced package index.
pub struct RegistryServer {
    root: Option<Box<RegistryNode>>,
}

impl RegistryServer {
    /// The stored records: package key to record payload.
    pub closed spec fn view(&self) -> Map<Seq<char>, RegistryNode> {
        sub_as_map(self.root)
    }

    /// The index is a well-formed balanced search tree.
    pub closed spec fn inv(&self) -> bool {
        sub_wf(self.root)
    }

    /// Height of the index tree.
    pub closed spec fn height(&self) -> int {
        sub_height(self.root)
    }

    /// An empty index.
    pub fn new() -> (r: Self)
        ensures
            r.inv(),
            r@ == Map::<Seq<char>, RegistryNode>::empty(),
            r.height() == 0,
    {
        RegistryServer { root: None }
    }

    /// Insert a fresh record, keyed by its `package_id`, and rebalance.
    ///
    /// Rejected with `DuplicateKey` iff the key is already published; the
    /// index is then unchanged, preserving the earlier record.
    pub fn insert(&mut self, node: RegistryNode) -> (r: Result<(), RegistryError>)
        requires
            old(self).inv(),
            node.left is None,
            node.right is None,
            node.height == 1,
            old(self).height() <= usize::MAX - 3,
        ensures
            final(self).inv(),
            r is Ok <==> !old(self)@.dom().contains(node.package_id@),
            r is Ok ==> final(self)@ == old(self)@.insert(node.package_id@, payload(node)),
            r is Err ==> final(self)@ == old(self)@ && *final(self) == *old(self),
            old(self).height() <= final(self).height() <= old(self).height() + 1,
    {
        if search_rec(&self.root, node.package_id.as_str()).is_some() {
            return Err(RegistryError::DuplicateKey);
        }
        let root = self.root.take();
        self.root = Some(insert_rec(root, node));
        Ok(())
    }

    /// Look a record up by key: returns it iff the key was inserted.
    pub fn search(&self, package_id: &str) -> (r: Option<&RegistryNode>)
        requires
            self.inv(),
        ensures
            r is Some <==> self@.dom().contains(package_id@),
            r matches Some(found) ==> found.package_id@ == package_id@ && payload(*found)
                == self@[package_id@],
    {
        search_rec(&self.root, package_id)
    }

    /// The height-balance law over the tree shape: under the index's
    /// invariant — which `new` establishes and `insert` preserves — every
    /// node's cached height is one more than its taller child's, with an
    /// empty subtree of height zero, and the two subtree heights differ by
    /// at most one at every node.
    pub proof fn lemma_balanced_shape(&self)
        requires
            self.inv(),
        ensures
            sub_heights_ok(self.root_spec()),
            sub_balanced(self.root_spec()),
            sub_bst(self.root_spec()),
    {
    }

    /// The sorted key sequence law: the index's keys, read in order, are
    /// strictly increasing.
    pub proof fn lemma_sorted_keys(&self)
        requires
            self.inv(),
        ensures
            strictly_sorted(sub_in_order(self.root_spec())),
    {
        lemma_bst_in_order_sorted(self.root);
    }

    /// The tree root, for stating laws about the index's shape.
    pub closed spec fn root_spec(&self) -> Option<Box<RegistryNode>> {
        self.root
    }
}

} // verus!
