use vstd::prelude::*;
use vstd::arithmetic::power2::{pow2, lemma_pow2_unfold, lemma2_to64};

verus! {

/// The shape of a bounding volume hierarchy over objects numbered
/// `0..count`: a leaf holds one object, a branch two subtrees. The boxes of
/// the branches are computed from the objects' own boxes by whoever owns
/// the objects; this type decides which object goes where.
pub enum BvhNode {
    Leaf(usize),
    Branch(Box<BvhNode>, Box<BvhNode>),
}

/// `r` holds exactly the elements of `v`, each once (given that `v` holds
/// each of its elements once): `r` is `v` in some order.
pub open spec fn rearranges(r: Seq<usize>, v: Seq<usize>) -> bool {
    &&& r.len() == v.len()
    &&& r.no_duplicates()
    &&& forall|x: usize| r.contains(x) <==> v.contains(x)
}

/// `order`, handed the group `v` (two or more distinct objects below
/// `count`), may return `r`, which is not a rearrangement of it.
pub open spec fn order_can_fail<F: Fn(&Vec<usize>) -> Vec<usize>>(order: F, count: nat) -> bool {
    exists|v: Vec<usize>, r: Vec<usize>|
        #![trigger order.ensures((&v,), r)]
        {
            &&& v@.len() > 1
            &&& v@.no_duplicates()
            &&& forall|j: int| 0 <= j < v@.len() ==> v@[j] < count
            &&& order.ensures((&v,), r)
            &&& !rearranges(r@, v@)
        }
}

/// `s` lists every object number in `0..count`, each exactly once.
pub open spec fn is_permutation_of_range(s: Seq<usize>, count: nat) -> bool {
    &&& s.len() == count
    &&& s.no_duplicates()
    &&& forall|x: usize| s.contains(x) <==> x < count
}

/// `t` is the hierarchy that `order` makes of `group`: a group of one
/// object is a leaf; a larger group is a branch whose left subtree is made
/// of the first half (`n / 2` objects) of an order that `order` may return
/// for the group, and whose right subtree of the rest of that order.
pub open spec fn split_as_ordered<F: Fn(&Vec<usize>) -> Vec<usize>>(t: BvhNode, group: Seq<usize>, order: F) -> bool
    decreases t,
{
    match t {
        BvhNode::Leaf(i) => group == seq![i],
        BvhNode::Branch(l, r) => group.len() > 1 && exists|v: Vec<usize>, o: Vec<usize>|
            #![trigger order.ensures((&v,), o)]
            {
                &&& v@ == group
                &&& order.ensures((&v,), o)
                &&& rearranges(o@, group)
                &&& split_as_ordered(*l, o@.take((o@.len() / 2) as int), order)
                &&& split_as_ordered(*r, o@.skip((o@.len() / 2) as int), order)
            },
    }
}

impl BvhNode {
    /// The objects at the leaves, left to right.
    pub open spec fn leaves(self) -> Seq<usize>
        decreases self,
    {
        match self {
            BvhNode::Leaf(i) => seq![i],
            BvhNode::Branch(l, r) => l.leaves() + r.leaves(),
        }
    }

    /// Number of branches on the longest path from the root to a leaf.
    pub open spec fn depth(self) -> nat
        decreases self,
    {
        match self {
            BvhNode::Leaf(_) => 0,
            BvhNode::Branch(l, r) => {
                let (dl, dr) = (l.depth(), r.depth());
                1 + if dl >= dr { dl } else { dr }
            },
        }
    }

    /// Every branch over `n` objects gives the first `n / 2` of them to its
    /// left subtree and the remaining `n - n / 2` to its right subtree.
    pub open spec fn is_halved(self) -> bool
        decreases self,
    {
        match self {
            BvhNode::Leaf(_) => true,
            BvhNode::Branch(l, r) => {
                &&& l.leaves().len() == (l.leaves().len() + r.leaves().len()) / 2
                &&& l.is_halved()
                &&& r.is_halved()
            },
        }
    }

    /// Builds the hierarchy over the objects `0..count`. A single object is
    /// a leaf. Otherwise `order` puts the objects of the group in the order
    /// along which they are to be split (the caller sorts them along the
    /// axis where the group spreads most); the first half of that order
    /// (`n / 2` objects) becomes the left subtree, the rest the right one,
    /// each built the same way.
    ///
    /// `order` is checked: if it ever returns something other than a
    /// rearrangement of the group it was given, the result is `None`.
    pub fn build<F: Fn(&Vec<usize>) -> Vec<usize>>(count: usize, order: &F) -> (tree: Option<BvhNode>)
        requires
            0 < count,
            forall|v: &Vec<usize>| order.requires((v,)),
        ensures
            tree matches Some(t) ==> {
                &&& split_as_ordered(t, Seq::new(count as nat, |i: int| i as usize), *order)
                &&& is_permutation_of_range(t.leaves(), count as nat)
                &&& t.is_halved()
                &&& count <= pow2(t.depth())
                &&& t.depth() > 0 ==> pow2((t.depth() - 1) as nat) < count
            },
            (forall|v: &Vec<usize>, r: Vec<usize>| order.ensures((v,), r) ==> rearranges(r@, v@))
                ==> tree is Some,
            tree is None ==> order_can_fail(*order, count as nat),
            count == 1 ==> tree == Some(BvhNode::Leaf(0)),
    {
        let mut marks: Vec<u8> = Vec::new();
        let mut k: usize = 0;
        while k < count
            invariant
                k <= count,
                marks@.len() == k,
                all_clear(marks@),
            decreases count - k,
        {
            marks.push(0);
            k = k + 1;
        }
        let mut items: Vec<usize> = Vec::new();
        let mut i: usize = 0;
        while i < count
            invariant
                i <= count,
                items@.len() == i,
                forall|j: int| 0 <= j < i ==> items@[j] == j,
            decreases count - i,
        {
            items.push(i);
            i = i + 1;
        }
        proof {
            assert(items@ =~= Seq::new(count as nat, |i: int| i as usize));
            assert forall|x: usize| items@.contains(x) <==> x < count by {
                if x < count {
                    assert(items@[x as int] == x);
                }
            }
        }
        let tree = Self::build_from(items, count, order, &mut marks);
        proof {
            if tree is Some {
                lemma_halved_depth(tree->0);
            }
        }
        tree
    }

    fn build_from<F: Fn(&Vec<usize>) -> Vec<usize>>(
        items: Vec<usize>,
        count: usize,
        order: &F,
        marks: &mut Vec<u8>,
    ) -> (tree: Option<BvhNode>)
        requires
            old(marks)@.len() == count,
            all_clear(old(marks)@),
            items@.len() >= 1,
            items@.no_duplicates(),
            forall|j: int| 0 <= j < items@.len() ==> items@[j] < count,
            forall|v: &Vec<usize>| order.requires((v,)),
        ensures
            tree matches Some(t) ==> {
                &&& split_as_ordered(t, items@, *order)
                &&& rearranges(t.leaves(), items@)
                &&& t.is_halved()
            },
            (forall|v: &Vec<usize>, r: Vec<usize>| order.ensures((v,), r) ==> rearranges(r@, v@))
                ==> tree is Some,
            tree is None ==> order_can_fail(*order, count as nat),
            items@.len() == 1 ==> tree == Some(BvhNode::Leaf(items@[0])),
            final(marks)@.len() == count,
            all_clear(final(marks)@),
        decreases items@.len(),
    {
        if items.len() == 1 {
            let t = BvhNode::Leaf(items[0]);
            proof {
                assert(t.leaves() =~= items@);
            }
            return Some(t);
        }
        let mut ordered = order(&items);
        if !rearranges_exec(&ordered, &items, count, marks) {
            proof {
                assert(order.ensures((&items,), ordered));
            }
            return None;
        }
        let n = ordered.len();
        let ghost whole = ordered@;
        let ghost whole_vec = ordered;
        let right_items = ordered.split_off(n / 2);
        proof {
            assert(whole =~= ordered@ + right_items@);
            assert forall|j: int| 0 <= j < ordered@.len() implies ordered@[j] < count by {
                assert(whole.contains(whole[j]));
            }
            assert forall|j: int| 0 <= j < right_items@.len() implies right_items@[j] < count by {
                assert(whole.contains(whole[j + n / 2]));
            }
        }
        let left = match Self::build_from(ordered, count, order, marks) {
            Some(t) => t,
            None => { return None; },
        };
        let right = match Self::build_from(right_items, count, order, marks) {
            Some(t) => t,
            None => { return None; },
        };
        let ghost left_items = whole.subrange(0, (n / 2) as int);
        let ghost right_part = whole.subrange((n / 2) as int, n as int);
        let t = BvhNode::Branch(Box::new(left), Box::new(right));
        proof {
            let (ll, rl) = (left.leaves(), right.leaves());
            assert(t.leaves() == ll + rl);
            lemma_concat_rearranges(ll, rl, left_items, right_part);
            assert(left_items + right_part =~= whole);
            assert(whole.take((n / 2) as int) =~= left_items);
            assert(whole.skip((n / 2) as int) =~= right_part);
            assert(whole_vec@ == whole);
            assert(order.ensures((&items,), whole_vec));
        }
        Some(t)
    }
}

/// Two rearranged halves of a list without duplicates, put side by side,
/// rearrange the whole list.
proof fn lemma_concat_rearranges(a: Seq<usize>, b: Seq<usize>, va: Seq<usize>, vb: Seq<usize>)
    requires
        rearranges(a, va),
        rearranges(b, vb),
        (va + vb).no_duplicates(),
    ensures
        forall|x: usize| (a + b).contains(x) <==> (va + vb).contains(x),
        (a + b).no_duplicates(),
        (a + b).len() == (va + vb).len(),
{
    let (ab, v) = (a + b, va + vb);
    assert forall|x: usize| ab.contains(x) <==> v.contains(x) by {
        if ab.contains(x) {
            let k = choose|k: int| 0 <= k < ab.len() && ab[k] == x;
            if k < a.len() {
                assert(a.contains(x));
                let m = choose|m: int| 0 <= m < va.len() && va[m] == x;
                assert(v[m] == x);
            } else {
                assert(b[k - a.len()] == x);
                assert(b.contains(x));
                let m = choose|m: int| 0 <= m < vb.len() && vb[m] == x;
                assert(v[m + va.len()] == x);
            }
        }
        if v.contains(x) {
            let k = choose|k: int| 0 <= k < v.len() && v[k] == x;
            if k < va.len() {
                assert(va[k] == x);
                assert(va.contains(x));
                let m = choose|m: int| 0 <= m < a.len() && a[m] == x;
                assert(ab[m] == x);
            } else {
                assert(vb[k - va.len()] == x);
                assert(vb.contains(x));
                let m = choose|m: int| 0 <= m < b.len() && b[m] == x;
                assert(ab[m + a.len()] == x);
            }
        }
    }
    assert forall|i: int, j: int| 0 <= i < ab.len() && 0 <= j < ab.len() && i != j
        implies ab[i] != ab[j] by {
        if i < a.len() && j >= a.len() {
            lemma_halves_disjoint(a, b, va, vb, i, j - a.len());
        } else if j < a.len() && i >= a.len() {
            lemma_halves_disjoint(a, b, va, vb, j, i - a.len());
        }
    }
}

proof fn lemma_halves_disjoint(a: Seq<usize>, b: Seq<usize>, va: Seq<usize>, vb: Seq<usize>, i: int, j: int)
    requires
        rearranges(a, va),
        rearranges(b, vb),
        (va + vb).no_duplicates(),
        0 <= i < a.len(),
        0 <= j < b.len(),
    ensures
        a[i] != b[j],
{
    let v = va + vb;
    assert(a.contains(a[i]));
    assert(b.contains(b[j]));
    let m = choose|m: int| 0 <= m < va.len() && va[m] == a[i];
    let k = choose|k: int| 0 <= k < vb.len() && vb[k] == b[j];
    assert(v[m] == va[m]);
    assert(v[k + va.len()] == vb[k]);
}

/// Every mark is cleared.
pub open spec fn all_clear(marks: Seq<u8>) -> bool {
    forall|x: int| 0 <= x < marks.len() ==> marks[x] == 0
}

/// Decides whether `r` is a rearrangement of `v`, whose elements are
/// distinct and below `count`. `marks` is scratch space with one cleared
/// mark per object; it is handed back cleared, and only the marks of the
/// objects of `v` are touched, so the check costs time in proportion to the
/// group, not to all objects.
fn rearranges_exec(r: &Vec<usize>, v: &Vec<usize>, count: usize, marks: &mut Vec<u8>) -> (b: bool)
    requires
        v@.no_duplicates(),
        forall|j: int| 0 <= j < v@.len() ==> v@[j] < count,
        old(marks)@.len() == count,
        all_clear(old(marks)@),
    ensures
        b == rearranges(r@, v@),
        final(marks)@.len() == count,
        all_clear(final(marks)@),
{
    if r.len() != v.len() {
        return false;
    }
    // Mark 1: the object is in `v`.
    let mut i: usize = 0;
    while i < v.len()
        invariant
            i <= v@.len(),
            marks@.len() == count,
            forall|j: int| 0 <= j < v@.len() ==> v@[j] < count,
            forall|x: int| 0 <= x < count ==> marks@[x] == (if v@.take(i as int).contains(x as usize) { 1u8 } else { 0u8 }),
        decreases v@.len() - i,
    {
        let e = v[i];
        marks.set(e, 1);
        proof {
            let (old_t, new_t) = (v@.take(i as int), v@.take(i + 1));
            assert(new_t =~= old_t.push(e));
            assert forall|x: int| 0 <= x < count implies marks@[x] == (if new_t.contains(x as usize) { 1u8 } else { 0u8 }) by {
                if old_t.contains(x as usize) {
                    let m = choose|m: int| 0 <= m < old_t.len() && old_t[m] == x as usize;
                    assert(new_t[m] == x as usize);
                }
                if new_t.contains(x as usize) && x as usize != e {
                    let m = choose|m: int| 0 <= m < new_t.len() && new_t[m] == x as usize;
                    assert(old_t[m] == x as usize);
                }
                if x as usize == e {
                    assert(new_t[i as int] == e);
                }
            }
        }
        i = i + 1;
    }
    proof {
        assert(v@.take(v@.len() as int) =~= v@);
    }
    // Mark 2: the object is in `v` and has been met in `r`.
    let mut ok = true;
    let mut j: usize = 0;
    while ok && j < r.len()
        invariant
            j <= r@.len(),
            r@.len() == v@.len(),
            marks@.len() == count,
            forall|k: int| 0 <= k < v@.len() ==> v@[k] < count,
            forall|x: int| 0 <= x < count && !v@.contains(x as usize) ==> marks@[x] == 0,
            ok ==> forall|x: int| 0 <= x < count ==> marks@[x] == (if v@.contains(x as usize) {
                if r@.take(j as int).contains(x as usize) { 2u8 } else { 1u8 }
            } else { 0u8 }),
            ok ==> r@.take(j as int).no_duplicates(),
            ok ==> forall|x: usize| r@.take(j as int).contains(x) ==> v@.contains(x),
            !ok ==> !rearranges(r@, v@),
        decreases r@.len() - j, (if ok { 1int } else { 0int }),
    {
        let e = r[j];
        proof {
            assert(r@.contains(e));
        }
        if e >= count {
            proof {
                if v@.contains(e) {
                    let m = choose|m: int| 0 <= m < v@.len() && v@[m] == e;
                }
            }
            ok = false;
        } else if marks[e] != 1 {
            proof {
                if v@.contains(e) {
                    let m = choose|m: int| 0 <= m < j && r@.take(j as int)[m] == e;
                    assert(r@[m] == r@[j as int]);
                }
            }
            ok = false;
        } else {
            marks.set(e, 2);
            proof {
                let t = r@.take(j + 1);
                let old_t = r@.take(j as int);
                assert(t =~= old_t.push(e));
                assert forall|x: int| 0 <= x < count implies marks@[x] == (if v@.contains(x as usize) {
                    if t.contains(x as usize) { 2u8 } else { 1u8 }
                } else { 0u8 }) by {
                    if old_t.contains(x as usize) {
                        let m = choose|m: int| 0 <= m < old_t.len() && old_t[m] == x as usize;
                        assert(t[m] == x as usize);
                    }
                    if t.contains(x as usize) && x as usize != e {
                        let m = choose|m: int| 0 <= m < t.len() && t[m] == x as usize;
                        assert(old_t[m] == x as usize);
                    }
                    if x as usize == e {
                        assert(t[j as int] == e);
                    }
                }
                assert forall|a: int, b: int| 0 <= a < t.len() && 0 <= b < t.len() && a != b
                    implies t[a] != t[b] by {
                    if a == j as int {
                        assert(old_t.contains(t[b]));
                    } else if b == j as int {
                        assert(old_t.contains(t[a]));
                    }
                }
                assert forall|x: usize| t.contains(x) implies v@.contains(x) by {
                    if x != e {
                        let m = choose|m: int| 0 <= m < t.len() && t[m] == x;
                        assert(old_t[m] == x);
                    }
                }
            }
            j = j + 1;
        }
    }
    let ghost marked = marks@;
    proof {
        if ok {
            assert(r@.take(r@.len() as int) =~= r@);
        }
    }
    // Every object of `v` must have been met in `r`; clear its mark.
    let ghost ok_before = ok;
    let mut i: usize = 0;
    while i < v.len()
        invariant
            i <= v@.len(),
            r@.len() == v@.len(),
            v@.no_duplicates(),
            marks@.len() == count,
            marked.len() == count,
            forall|k: int| 0 <= k < v@.len() ==> v@[k] < count,
            forall|x: int| 0 <= x < count && !v@.contains(x as usize) ==> marks@[x] == 0,
            forall|k: int| 0 <= k < i ==> marks@[v@[k] as int] == 0,
            forall|k: int| i <= k < v@.len() ==> marks@[v@[k] as int] == marked[v@[k] as int],
            ok ==> ok_before,
            ok_before ==> forall|x: int| 0 <= x < count ==> marked[x] == (if v@.contains(x as usize) {
                if r@.contains(x as usize) { 2u8 } else { 1u8 }
            } else { 0u8 }),
            ok_before ==> r@.no_duplicates(),
            ok_before ==> forall|x: usize| r@.contains(x) ==> v@.contains(x),
            !ok_before ==> !rearranges(r@, v@),
            ok ==> forall|k: int| 0 <= k < i ==> r@.contains(v@[k]),
            ok_before && !ok ==> !rearranges(r@, v@),
        decreases v@.len() - i,
    {
        let e = v[i];
        proof {
            assert(v@.contains(e));
        }
        if marks[e] != 2 {
            ok = false;
        }
        let ghost before = marks@;
        marks.set(e, 0);
        proof {
            assert forall|k: int| i + 1 <= k < v@.len() implies marks@[v@[k] as int] == marked[v@[k] as int] by {
                assert(v@[k] != v@[i as int]);
            }
            assert forall|x: int| 0 <= x < count && !v@.contains(x as usize) implies marks@[x] == 0 by {
                assert(x != e as int);
            }
        }
        i = i + 1;
    }
    proof {
        assert forall|x: int| 0 <= x < marks@.len() implies marks@[x] == 0 by {
            if v@.contains(x as usize) {
                let m = choose|m: int| 0 <= m < v@.len() && v@[m] == x as usize;
            }
        }
        if ok {
            assert forall|x: usize| v@.contains(x) implies r@.contains(x) by {
                let m = choose|m: int| 0 <= m < v@.len() && v@[m] == x;
            }
        }
    }
    ok
}

/// A halved hierarchy over `n` objects has depth exactly `⌈log2 n⌉`: a ray
/// that descends into every box it hits passes through at most that many
/// branches on the way to any one object.
pub proof fn lemma_halved_depth(t: BvhNode)
    requires
        t.is_halved(),
    ensures
        t.leaves().len() <= pow2(t.depth()),
        t.depth() > 0 ==> pow2((t.depth() - 1) as nat) < t.leaves().len(),
        t.leaves().len() >= 1,
    decreases t,
{
    lemma2_to64();
    match t {
        BvhNode::Leaf(_) => {},
        BvhNode::Branch(l, r) => {
            lemma_halved_depth(*l);
            lemma_halved_depth(*r);
            let (dl, dr) = (l.depth(), r.depth());
            let d = t.depth();
            lemma_pow2_unfold(d);
            if dl > 0 {
                lemma_pow2_unfold(dl);
            }
            if dr > 0 {
                lemma_pow2_unfold(dr);
            }
            if dl >= dr {
                lemma_pow2_monotone(dr, dl);
            } else {
                lemma_pow2_monotone(dl, dr);
            }
        },
    }
}

proof fn lemma_pow2_monotone(a: nat, b: nat)
    requires
        a <= b,
    ensures
        pow2(a) <= pow2(b),
    decreases b - a,
{
    if a < b {
        lemma_pow2_monotone(a, (b - 1) as nat);
        lemma_pow2_unfold(b);
    }
}

} // verus!
