//! The order in which paths are listed: component by component.
//!
//! A path is held as the bytes of its name, with `/` between its
//! components. One path comes before another where, at the first component
//! in which they differ, it has the smaller component (byte by byte, a
//! proper prefix first), or where it runs out of components first. Read
//! along the bytes this is the lexicographic order in which the separator
//! ranks below every other byte.

use vstd::prelude::*;

verus! {

/// The byte that separates the components of a path.
pub const SEPARATOR: u8 = 0x2F;

/// How one path stands to another in the listing order.
#[derive(Clone, Copy, Debug, PartialEq, Eq, Structural)]
pub enum PathOrder {
    Before,
    Same,
    After,
}

/// The rank of a byte within a path: the separator lowest, every other
/// byte above it in the order of its value.
pub open spec fn rank(byte: u8) -> int {
    if byte == SEPARATOR {
        0
    } else {
        byte + 1
    }
}

/// Path `a` is listed strictly before path `b`: at the first byte where
/// they differ `a` has the byte of lower rank, or `a` is a proper prefix of
/// `b`.
pub open spec fn path_before(a: Seq<u8>, b: Seq<u8>) -> bool
    decreases a.len(),
{
    if b.len() == 0 {
        false
    } else if a.len() == 0 {
        true
    } else if a[0] != b[0] {
        rank(a[0]) < rank(b[0])
    } else {
        path_before(a.drop_first(), b.drop_first())
    }
}

/// The place of path `a` relative to path `b`.
pub open spec fn path_order(a: Seq<u8>, b: Seq<u8>) -> PathOrder {
    if path_before(a, b) {
        PathOrder::Before
    } else if a == b {
        PathOrder::Same
    } else {
        PathOrder::After
    }
}

/// No path is listed before itself.
pub proof fn lemma_path_before_irreflexive(a: Seq<u8>)
    ensures
        !path_before(a, a),
    decreases a.len(),
{
    if a.len() > 0 {
        lemma_path_before_irreflexive(a.drop_first());
    }
}

/// Of two different paths exactly one is listed before the other.
pub proof fn lemma_path_before_total(a: Seq<u8>, b: Seq<u8>)
    requires
        a != b,
    ensures
        path_before(a, b) <==> !path_before(b, a),
    decreases a.len(),
{
    if a.len() > 0 && b.len() > 0 {
        if a[0] == b[0] {
            if a.drop_first() == b.drop_first() {
                assert(a =~= seq![a[0]] + a.drop_first());
                assert(b =~= seq![b[0]] + b.drop_first());
            }
            lemma_path_before_total(a.drop_first(), b.drop_first());
        }
    } else if a.len() == 0 && b.len() == 0 {
        assert(a =~= b);
    }
}

/// The listing order is transitive.
pub proof fn lemma_path_before_transitive(a: Seq<u8>, b: Seq<u8>, c: Seq<u8>)
    requires
        path_before(a, b),
        path_before(b, c),
    ensures
        path_before(a, c),
    decreases a.len(),
{
    if a.len() > 0 && a[0] == b[0] && b[0] == c[0] {
        lemma_path_before_transitive(a.drop_first(), b.drop_first(), c.drop_first());
    }
}

/// The first component of a path: its bytes up to the first separator.
pub open spec fn first_component(path: Seq<u8>) -> Seq<u8>
    decreases path.len(),
{
    if path.len() == 0 || path[0] == SEPARATOR {
        Seq::empty()
    } else {
        seq![path[0]] + first_component(path.drop_first())
    }
}

/// What follows the first separator of a path; `None` where the path is a
/// single component.
pub open spec fn after_first_component(path: Seq<u8>) -> Option<Seq<u8>>
    decreases path.len(),
{
    if path.len() == 0 {
        None
    } else if path[0] == SEPARATOR {
        Some(path.drop_first())
    } else {
        after_first_component(path.drop_first())
    }
}

/// Component `a` is smaller than component `b`: at the first byte where
/// they differ `a` has the smaller byte, or `a` is a proper prefix of `b`.
pub open spec fn component_before(a: Seq<u8>, b: Seq<u8>) -> bool
    decreases a.len(),
{
    if b.len() == 0 {
        false
    } else if a.len() == 0 {
        true
    } else if a[0] != b[0] {
        a[0] < b[0]
    } else {
        component_before(a.drop_first(), b.drop_first())
    }
}

/// Path `a` comes before path `b` when the two are compared component by
/// component: the first components that differ decide, and where one path
/// has no component left it comes first.
pub open spec fn components_before(a: Seq<u8>, b: Seq<u8>) -> bool
    decreases a.len(),
{
    if first_component(a) != first_component(b) {
        component_before(first_component(a), first_component(b))
    } else {
        match (after_first_component(a), after_first_component(b)) {
            (Some(rest_a), Some(rest_b)) => rest_a.len() < a.len() && components_before(rest_a, rest_b),
            (None, Some(_)) => true,
            _ => false,
        }
    }
}

/// What follows the first separator is shorter than the path.
pub proof fn lemma_rest_is_shorter(path: Seq<u8>)
    ensures
        after_first_component(path) matches Some(rest) ==> rest.len() < path.len(),
    decreases path.len(),
{
    if path.len() > 0 && path[0] != SEPARATOR {
        lemma_rest_is_shorter(path.drop_first());
    }
}

/// The listing order is the order of paths compared component by
/// component.
pub proof fn lemma_path_order_is_by_components(a: Seq<u8>, b: Seq<u8>)
    ensures
        path_before(a, b) <==> components_before(a, b),
    decreases a.len(),
{
    lemma_rest_is_shorter(a);
    if a.len() > 0 && b.len() > 0 && a[0] == b[0] {
        let rest_a = a.drop_first();
        let rest_b = b.drop_first();
        lemma_path_order_is_by_components(rest_a, rest_b);
        lemma_rest_is_shorter(rest_a);
        if a[0] != SEPARATOR {
            let lead = seq![a[0]];
            assert((lead + first_component(rest_a)).drop_first() =~= first_component(rest_a));
            assert((lead + first_component(rest_b)).drop_first() =~= first_component(rest_b));
            if first_component(rest_a) == first_component(rest_b) {
                assert(first_component(a) == first_component(b));
            } else {
                assert(first_component(a).drop_first() != first_component(b).drop_first());
            }
        }
    } else if a.len() > 0 && b.len() > 0 {
        if a[0] != SEPARATOR && b[0] != SEPARATOR {
            assert(first_component(a)[0] == a[0]);
            assert(first_component(b)[0] == b[0]);
        } else if a[0] == SEPARATOR {
            assert(first_component(b)[0] == b[0]);
        } else {
            assert(first_component(a)[0] == a[0]);
        }
    } else if a.len() > 0 {
        if a[0] != SEPARATOR {
            assert(first_component(a)[0] == a[0]);
        }
    } else if b.len() > 0 {
        if b[0] != SEPARATOR {
            assert(first_component(b)[0] == b[0]);
        }
    }
}

/// A component that ends comes before one that goes on: where two paths
/// agree up to a place at which one has the separator and the other any
/// other byte, the one with the separator is listed first.
pub proof fn lemma_shorter_component_first(stem: Seq<u8>, rest_a: Seq<u8>, other: u8, rest_b: Seq<u8>)
    requires
        other != SEPARATOR,
    ensures
        path_before(stem + seq![SEPARATOR] + rest_a, stem + seq![other] + rest_b),
    decreases stem.len(),
{
    let a = stem + seq![SEPARATOR] + rest_a;
    let b = stem + seq![other] + rest_b;
    if stem.len() == 0 {
        assert(a[0] == SEPARATOR && b[0] == other);
    } else {
        assert(a[0] == stem[0] && b[0] == stem[0]);
        assert(a.drop_first() =~= stem.drop_first() + seq![SEPARATOR] + rest_a);
        assert(b.drop_first() =~= stem.drop_first() + seq![other] + rest_b);
        lemma_shorter_component_first(stem.drop_first(), rest_a, other, rest_b);
    }
}

fn rank_of(byte: u8) -> (r: u16)
    ensures
        r == rank(byte),
{
    if byte == SEPARATOR {
        0
    } else {
        byte as u16 + 1
    }
}

/// Says where path `a` stands relative to path `b`.
pub fn compare_paths(a: &[u8], b: &[u8]) -> (order: PathOrder)
    ensures
        order == path_order(a@, b@),
{
    let mut i: usize = 0;
    proof {
        assert(a@.skip(0) =~= a@);
        assert(b@.skip(0) =~= b@);
    }
    while i < a.len() && i < b.len()
        invariant
            i <= a.len(),
            i <= b.len(),
            path_order(a@, b@) == path_order(a@.skip(i as int), b@.skip(i as int)),
        decreases a.len() - i,
    {
        let ghost rest_a = a@.skip(i as int);
        let ghost rest_b = b@.skip(i as int);
        assert(rest_a[0] == a@[i as int] && rest_b[0] == b@[i as int]);
        if a[i] != b[i] {
            return if rank_of(a[i]) < rank_of(b[i]) {
                PathOrder::Before
            } else {
                PathOrder::After
            };
        }
        proof {
            assert(rest_a.drop_first() =~= a@.skip(i + 1));
            assert(rest_b.drop_first() =~= b@.skip(i + 1));
            if rest_a.drop_first() == rest_b.drop_first() {
                assert(rest_a =~= seq![rest_a[0]] + rest_a.drop_first());
                assert(rest_b =~= seq![rest_b[0]] + rest_b.drop_first());
            }
        }
        i += 1;
    }
    proof {
        if a@.skip(i as int).len() == 0 && b@.skip(i as int).len() == 0 {
            assert(a@.skip(i as int) =~= b@.skip(i as int));
        }
    }
    if i < b.len() {
        PathOrder::Before
    } else if i < a.len() {
        PathOrder::After
    } else {
        PathOrder::Same
    }
}

} // verus!
