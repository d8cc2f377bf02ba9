//! Ordered pairings of two sorted sequences of one length: every way to give
//! each `x` a `y` of its own, listed in lexicographic order of the `y`s, where
//! equal `x`s next to each other take their `y`s in non-decreasing order.
//!
//! Each pairing is handed out as a vector of its own; nothing is shared between
//! one call of `next` and the following.

use arrayvec::ArrayVec;
use vstd::prelude::*;
use vstd::seq_lib::*;
use vstd::slice::slice_to_vec;

verus! {

/// `arrayvec::ArrayVec`, a vector of at most `CAP` items that lives in an
/// array. Nothing inside it is visible here; what it holds is named by `held`.
#[verifier::external_type_specification]
#[verifier::external_body]
#[verifier::reject_recursive_types(T)]
pub struct ExArrayVec<T, const CAP: usize>(ArrayVec<T, CAP>);

/// The items that an `ArrayVec` of up to ten bytes holds, oldest first. The
/// contracts of the functions below say what each call of the crate does to
/// them; nothing else is known of it.
pub uninterp spec fn held(v: ArrayVec<u8, 10>) -> Seq<u8>;

/// `ArrayVec::new`: the new buffer holds nothing.
#[verifier::external_body]
fn buf_new() -> (v: ArrayVec<u8, 10>)
    ensures
        held(v) == Seq::<u8>::empty(),
{
    ArrayVec::new()
}

/// `ArrayVec::push`: appends `x` behind what the buffer holds. It panics on a
/// full buffer, which the precondition excludes.
#[verifier::external_body]
fn buf_push(v: &mut ArrayVec<u8, 10>, x: u8)
    requires
        held(*old(v)).len() < 10,
    ensures
        held(*final(v)) == held(*old(v)).push(x),
{
    v.push(x)
}

/// `ArrayVec::len`: the number of items held.
#[verifier::external_body]
fn buf_len(v: &ArrayVec<u8, 10>) -> (n: usize)
    ensures
        n == held(*v).len(),
{
    v.len()
}

/// Indexing an `ArrayVec` through its slice: the item at position `i`. It
/// panics past the end, which the precondition excludes.
#[verifier::external_body]
fn buf_get(v: &ArrayVec<u8, 10>, i: usize) -> (x: u8)
    requires
        i < held(*v).len(),
    ensures
        x == held(*v)[i as int],
{
    v[i]
}

/// `ArrayVec::clone`: the copy holds the same items in the same order.
#[verifier::external_body]
fn buf_clone(v: &ArrayVec<u8, 10>) -> (c: ArrayVec<u8, 10>)
    ensures
        held(c) == held(*v),
{
    v.clone()
}

/// A node of the search: the `y`s chosen so far, one for each of the first
/// `x`s, and the `y`s still to hand out.
pub struct Frame {
    pub acc: Seq<u8>,
    pub ys: Seq<u8>,
}

pub open spec fn sorted(s: Seq<u8>) -> bool {
    forall|i: int, j: int| 0 <= i <= j < s.len() ==> s[i] <= s[j]
}

/// The first components of a pairing.
pub open spec fn firsts(p: Seq<(u8, u8)>) -> Seq<u8> {
    Seq::new(p.len(), |i: int| p[i].0)
}

/// The second components of a pairing.
pub open spec fn seconds(p: Seq<(u8, u8)>) -> Seq<u8> {
    Seq::new(p.len(), |i: int| p[i].1)
}

/// `a` and `b` agree before position `p`, which both have and where `a` is
/// smaller.
pub open spec fn diverge_at(a: Seq<u8>, b: Seq<u8>, p: int) -> bool {
    &&& 0 <= p < a.len()
    &&& p < b.len()
    &&& a[p] < b[p]
    &&& forall|i: int| 0 <= i < p ==> a[i] == b[i]
}

/// `a` comes before `b` in lexicographic order, and neither begins the other.
pub open spec fn precedes(a: Seq<u8>, b: Seq<u8>) -> bool {
    exists|p: int| diverge_at(a, b, p)
}

/// Position `k` has the same `x` as the position before it.
pub open spec fn is_tied(xs: Seq<u8>, k: int) -> bool {
    1 <= k < xs.len() && xs[k - 1] == xs[k]
}

/// Equal `x`s next to each other have their `y`s in non-decreasing order, so
/// that of the pairings that differ only by a swap between them one is kept.
pub open spec fn ties_kept(xs: Seq<u8>, acc: Seq<u8>) -> bool {
    forall|k: int| 0 <= k < acc.len() && is_tied(xs, k) ==> acc[k - 1] <= acc[k]
}

/// The number of nodes of a full search tree over `r` remaining `y`s.
pub open spec fn tree_size(r: nat) -> nat
    decreases r,
{
    if r == 0 {
        1
    } else {
        1 + r * tree_size((r - 1) as nat)
    }
}

/// A bound on the number of nodes that the search still visits.
pub open spec fn budget(stack: Seq<Frame>) -> nat
    decreases stack.len(),
{
    if stack.len() == 0 {
        0
    } else {
        budget(stack.drop_last()) + tree_size(stack.last().ys.len())
    }
}

/// A node holds, chosen or still to hand out, exactly the `y`s.
pub open spec fn frame_ok(f: Frame, xs: Seq<u8>, ys: Seq<u8>) -> bool {
    &&& f.acc.len() + f.ys.len() == ys.len()
    &&& sorted(f.ys)
    &&& (f.acc + f.ys).to_multiset() == ys.to_multiset()
    &&& ties_kept(xs, f.acc)
}

/// The search stack: every node is sound, a node nearer the top comes before
/// the ones below it, and all of them come after the pairing handed out last.
pub open spec fn stack_ok(
    stack: Seq<Frame>,
    xs: Seq<u8>,
    ys: Seq<u8>,
    last: Option<Seq<u8>>,
) -> bool {
    &&& xs.len() == ys.len()
    &&& ys.len() <= 10
    &&& ys.len() == 0 ==> stack.len() == 0
    &&& forall|i: int| 0 <= i < stack.len() ==> frame_ok(#[trigger] stack[i], xs, ys)
    &&& forall|i: int, j: int|
        0 <= i < j < stack.len() ==> precedes(#[trigger] stack[j].acc, #[trigger] stack[i].acc)
    &&& last matches Some(l) ==> {
        &&& l.len() == ys.len()
        &&& forall|i: int| 0 <= i < stack.len() ==> precedes(l, #[trigger] stack[i].acc)
    }
}

/// `a` begins with `pre`.
pub open spec fn begins_with(a: Seq<u8>, pre: Seq<u8>) -> bool {
    pre.len() <= a.len() && a.subrange(0, pre.len() as int) == pre
}

/// `a` gives each `x` a `y` of its own, and keeps the ties.
pub open spec fn is_assignment(a: Seq<u8>, xs: Seq<u8>, ys: Seq<u8>) -> bool {
    &&& a.len() == ys.len()
    &&& a.to_multiset() == ys.to_multiset()
    &&& ties_kept(xs, a)
}

/// `a` comes after what was handed out last.
pub open spec fn comes_after(last: Option<Seq<u8>>, a: Seq<u8>) -> bool {
    match last {
        Some(l) => precedes(l, a),
        None => true,
    }
}

/// `a` is the assignment that is handed out next after `last`: the first, in
/// lexicographic order, of those that come after it.
pub open spec fn is_next(a: Seq<u8>, xs: Seq<u8>, ys: Seq<u8>, last: Option<Seq<u8>>) -> bool {
    &&& is_assignment(a, xs, ys)
    &&& comes_after(last, a)
    &&& forall|c: Seq<u8>| #[trigger]
        is_assignment(c, xs, ys) && comes_after(last, c) ==> c == a || precedes(a, c)
}

/// Nothing is left to hand out after `last`.
pub open spec fn none_left(xs: Seq<u8>, ys: Seq<u8>, last: Option<Seq<u8>>) -> bool {
    forall|c: Seq<u8>| #[trigger] is_assignment(c, xs, ys) ==> !comes_after(last, c)
}

/// Some node from position `from` on has chosen exactly `acc`.
pub open spec fn has_node(stack: Seq<Frame>, from: int, acc: Seq<u8>) -> bool {
    exists|k: int| from <= k < stack.len() && (#[trigger] stack[k]).acc == acc
}

/// Some node from position `from` on has made choices that `a` begins with.
pub open spec fn reaches(stack: Seq<Frame>, from: int, a: Seq<u8>) -> bool {
    exists|k: int| from <= k < stack.len() && begins_with(a, (#[trigger] stack[k]).acc)
}

/// The search loses nothing: every assignment that is still to come begins
/// with the choices of some node.
pub open spec fn covers(stack: Seq<Frame>, xs: Seq<u8>, ys: Seq<u8>, last: Option<Seq<u8>>) -> bool {
    forall|a: Seq<u8>| #[trigger]
        is_assignment(a, xs, ys) && comes_after(last, a) ==> reaches(stack, 0, a)
}

/// The candidate `z` may follow the choices `pa`.
pub open spec fn allowed(tied: bool, pa: Seq<u8>, z: u8) -> bool {
    !tied || (pa.len() > 0 && z >= pa[pa.len() - 1])
}

/// A child of the node `(pa, py)` that was pushed while the candidates from
/// position `i` on were tried.
pub open spec fn child_ok(f: Frame, pa: Seq<u8>, py: Seq<u8>, i: int, xs: Seq<u8>, ys: Seq<u8>) -> bool {
    &&& f.acc.len() == pa.len() + 1
    &&& f.acc.subrange(0, pa.len() as int) == pa
    &&& f.ys.len() + 1 == py.len()
    &&& frame_ok(f, xs, ys)
    &&& forall|m: int| 0 <= m < i ==> py[m] < f.acc[pa.len() as int]
}

pub proof fn lemma_budget_push(s: Seq<Frame>, f: Frame)
    ensures
        budget(s.push(f)) == budget(s) + tree_size(f.ys.len()),
{
    assert(s.push(f).drop_last() =~= s);
}

/// Moving one `y` from those still to hand out to those chosen keeps the items.
pub proof fn lemma_move_keeps_items(acc: Seq<u8>, ys: Seq<u8>, idx: int)
    requires
        0 <= idx < ys.len(),
    ensures
        (acc.push(ys[idx]) + ys.remove(idx)).to_multiset() == (acc + ys).to_multiset(),
{
    let whole = acc + ys;
    let at = acc.len() + idx;
    assert(whole[at] == ys[idx]);
    assert(whole.remove(at) =~= acc + ys.remove(idx));
    assert((acc + ys.remove(idx)).insert(acc.len() as int, ys[idx]) =~= acc.push(ys[idx])
        + ys.remove(idx));
    to_multiset_remove(whole, at);
    to_multiset_insert(acc + ys.remove(idx), acc.len() as int, ys[idx]);
    to_multiset_contains(whole, ys[idx]);
    assert(whole.contains(ys[idx]));
    assert(whole.to_multiset().remove(ys[idx]).insert(ys[idx]) =~= whole.to_multiset());
}

/// What follows the choices `acc` in an assignment is a `y` that is still to
/// hand out.
pub proof fn lemma_next_choice_is_left(acc: Seq<u8>, py: Seq<u8>, a: Seq<u8>)
    requires
        (acc + py).to_multiset() == a.to_multiset(),
        begins_with(a, acc),
        acc.len() < a.len(),
    ensures
        py.contains(a[acc.len() as int]),
{
    broadcast use vstd::multiset::group_multiset_axioms;

    let m = acc.len() as int;
    let rest = a.subrange(m, a.len() as int);
    let z = a[m];
    assert(a =~= acc + rest);
    lemma_multiset_commutative(acc, py);
    lemma_multiset_commutative(acc, rest);
    assert(rest[0] == z);
    assert(rest.contains(z));
    to_multiset_contains(rest, z);
    to_multiset_contains(py, z);
    assert(acc.to_multiset().add(py.to_multiset()).count(z) == acc.to_multiset().add(
        rest.to_multiset(),
    ).count(z));
}

/// What begins with `a` comes before `b` where `a` does.
pub proof fn lemma_precedes_longer_left(a: Seq<u8>, longer: Seq<u8>, b: Seq<u8>)
    requires
        precedes(a, b),
        a.len() <= longer.len(),
        longer.subrange(0, a.len() as int) == a,
    ensures
        precedes(longer, b),
{
    let p = choose|p: int| diverge_at(a, b, p);
    assert forall|i: int| 0 <= i < a.len() implies longer[i] == a[i] by {
        assert(longer.subrange(0, a.len() as int)[i] == longer[i]);
    }
    assert(diverge_at(longer, b, p));
}

/// What begins with `b` comes after `a` where `b` does.
pub proof fn lemma_precedes_longer_right(a: Seq<u8>, b: Seq<u8>, longer: Seq<u8>)
    requires
        precedes(a, b),
        b.len() <= longer.len(),
        longer.subrange(0, b.len() as int) == b,
    ensures
        precedes(a, longer),
{
    let p = choose|p: int| diverge_at(a, b, p);
    assert forall|i: int| 0 <= i < b.len() implies longer[i] == b[i] by {
        assert(longer.subrange(0, b.len() as int)[i] == longer[i]);
    }
    assert(diverge_at(a, longer, p));
}

/// The order in which pairings are handed out is transitive.
pub proof fn lemma_precedes_transitive(a: Seq<u8>, b: Seq<u8>, c: Seq<u8>)
    requires
        precedes(a, b),
        precedes(b, c),
    ensures
        precedes(a, c),
{
    let l = choose|l: int| diverge_at(a, b, l);
    let m = choose|m: int| diverge_at(b, c, m);
    let k = if l <= m { l } else { m };
    assert(diverge_at(a, c, k));
}

/// A pairing that comes before another differs from it, so no pairing is
/// handed out twice.
pub proof fn lemma_precedes_distinct(a: Seq<u8>, b: Seq<u8>)
    requires
        precedes(a, b),
    ensures
        a != b,
{
}

/// What is handed out next is determined by the two sequences and by what was
/// handed out last.
pub proof fn lemma_next_is_unique(
    a: Seq<u8>,
    b: Seq<u8>,
    xs: Seq<u8>,
    ys: Seq<u8>,
    last: Option<Seq<u8>>,
)
    requires
        is_next(a, xs, ys, last),
        is_next(b, xs, ys, last),
    ensures
        a == b,
{
    if a != b {
        assert(is_assignment(b, xs, ys) && comes_after(last, b));
        assert(is_assignment(a, xs, ys) && comes_after(last, a));
        lemma_precedes_transitive(a, b, a);
        lemma_precedes_distinct(a, a);
    }
}

/// The order on pairs: by `x`, then by `y`.
pub open spec fn pair_le(a: (u8, u8), b: (u8, u8)) -> bool {
    a.0 < b.0 || (a.0 == b.0 && a.1 <= b.1)
}

/// A pairing of sorted `xs` that keeps the ties is sorted as a sequence of
/// pairs.
pub proof fn lemma_pairing_is_sorted(xs: Seq<u8>, p: Seq<(u8, u8)>, i: int, j: int)
    requires
        sorted(xs),
        firsts(p) == xs,
        ties_kept(xs, seconds(p)),
        0 <= i <= j < p.len(),
    ensures
        pair_le(p[i], p[j]),
    decreases j - i,
{
    if i < j {
        lemma_pairing_is_sorted(xs, p, i, j - 1);
        assert(firsts(p)[j - 1] == p[j - 1].0 && firsts(p)[j] == p[j].0);
        assert(seconds(p)[j - 1] == p[j - 1].1 && seconds(p)[j] == p[j].1);
        assert(xs[j - 1] <= xs[j]);
        if xs[j - 1] == xs[j] {
            assert(is_tied(xs, j));
        }
    }
}

/// Two pairings of the same sorted `xs` that keep the ties and hold the same
/// pairs, whatever their places, are the same pairing.
pub proof fn lemma_same_pairs_same_pairing(xs: Seq<u8>, p: Seq<(u8, u8)>, q: Seq<(u8, u8)>)
    requires
        sorted(xs),
        firsts(p) == xs,
        firsts(q) == xs,
        ties_kept(xs, seconds(p)),
        ties_kept(xs, seconds(q)),
        p.to_multiset() == q.to_multiset(),
    ensures
        p == q,
{
    let leq = |a: (u8, u8), b: (u8, u8)| pair_le(a, b);
    assert forall|i: int, j: int| 0 <= i < j < p.len() implies #[trigger] leq(p[i], p[j]) by {
        lemma_pairing_is_sorted(xs, p, i, j);
    }
    assert forall|i: int, j: int| 0 <= i < j < q.len() implies #[trigger] leq(q[i], q[j]) by {
        lemma_pairing_is_sorted(xs, q, i, j);
    }
    assert(vstd::relations::reflexive(leq));
    assert(vstd::relations::antisymmetric(leq));
    assert(vstd::relations::transitive(leq));
    assert(vstd::relations::strongly_connected(leq));
    lemma_sorted_unique(p, q, leq);
}

/// Of two pairings that are handed out one after the other, the later holds
/// other pairs than the earlier: no two are the same up to the places of
/// their pairs.
pub proof fn lemma_later_pairing_has_other_pairs(
    xs: Seq<u8>,
    p: Seq<(u8, u8)>,
    q: Seq<(u8, u8)>,
)
    requires
        sorted(xs),
        firsts(p) == xs,
        firsts(q) == xs,
        ties_kept(xs, seconds(p)),
        ties_kept(xs, seconds(q)),
        precedes(seconds(p), seconds(q)),
    ensures
        p.to_multiset() != q.to_multiset(),
{
    if p.to_multiset() == q.to_multiset() {
        lemma_same_pairs_same_pairing(xs, p, q);
        lemma_precedes_distinct(seconds(p), seconds(q));
    }
}

struct Inner {
    acc: ArrayVec<u8, 10>,
    ys: ArrayVec<u8, 10>,
}

impl Inner {
    spec fn frame(&self) -> Frame {
        Frame { acc: held(self.acc), ys: held(self.ys) }
    }
}

spec fn frames(v: Seq<Inner>) -> Seq<Frame> {
    Seq::new(v.len(), |i: int| v[i].frame())
}

/// A copy of `ys` without the item at `idx`.
fn without(ys: &ArrayVec<u8, 10>, idx: usize) -> (out: ArrayVec<u8, 10>)
    requires
        idx < held(*ys).len(),
        held(*ys).len() <= 10,
    ensures
        held(out) == held(*ys).remove(idx as int),
{
    let n = buf_len(ys);
    let mut out = buf_new();
    let mut j: usize = 0;
    while j < n
        invariant
            j <= n,
            n == held(*ys).len(),
            n <= 10,
            idx < n,
            j <= idx ==> held(out) == held(*ys).subrange(0, j as int),
            j > idx ==> held(out) == held(*ys).subrange(0, j as int).remove(idx as int),
        decreases n - j,
    {
        if j != idx {
            let ghost before = held(out);
            buf_push(&mut out, buf_get(ys, j));
            proof {
                let s = held(*ys);
                if j < idx {
                    assert(before.push(s[j as int]) =~= s.subrange(0, j + 1));
                } else {
                    assert(before.push(s[j as int]) =~= s.subrange(0, j + 1).remove(idx as int));
                }
            }
        } else {
            proof {
                let s = held(*ys);
                assert(s.subrange(0, j as int) =~= s.subrange(0, j + 1).remove(idx as int));
            }
        }
        j = j + 1;
    }
    proof {
        let s = held(*ys);
        assert(s.subrange(0, n as int) =~= s);
    }
    out
}

/// Pushes the children of `parent`, largest candidate first, so that the
/// smallest is on top: one for each distinct remaining `y`, and where the
/// parent's next position is tied to the one before it, only for a `y` that
/// is not smaller than the `y` chosen there.
fn push_children(
    stack: &mut Vec<Inner>,
    parent: &Inner,
    tied: bool,
    Ghost(xs): Ghost<Seq<u8>>,
    Ghost(ys_all): Ghost<Seq<u8>>,
    Ghost(last): Ghost<Option<Seq<u8>>>,
)
    requires
        frame_ok(parent.frame(), xs, ys_all),
        parent.frame().ys.len() >= 1,
        tied <==> is_tied(xs, parent.frame().acc.len() as int),
        stack_ok(frames(old(stack)@), xs, ys_all, last),
        forall|i: int|
            0 <= i < old(stack).len() ==> precedes(
                parent.frame().acc,
                #[trigger] frames(old(stack)@)[i].acc,
            ),
        last matches Some(l) ==> precedes(l, parent.frame().acc),
    ensures
        stack_ok(frames(final(stack)@), xs, ys_all, last),
        budget(frames(final(stack)@)) < budget(frames(old(stack)@)) + tree_size(
            parent.frame().ys.len(),
        ),
        final(stack).len() >= old(stack).len(),
        forall|k: int|
            0 <= k < old(stack).len() ==> #[trigger] frames(final(stack)@)[k] == frames(
                old(stack)@,
            )[k],
        forall|a: Seq<u8>| #[trigger]
            is_assignment(a, xs, ys_all) && begins_with(a, parent.frame().acc) ==> reaches(
                frames(final(stack)@),
                old(stack).len() as int,
                a,
            ),
{
    let r = buf_len(&parent.ys);
    let acc_len = buf_len(&parent.acc);
    let ghost pa = held(parent.acc);
    let ghost py = held(parent.ys);
    let ghost base = frames(stack@);
    let ghost unit = tree_size((r - 1) as nat);
    let mut i: usize = r;
    while i > 0
        invariant
            i <= r,
            r == py.len(),
            r >= 1,
            acc_len == pa.len(),
            pa == held(parent.acc),
            py == held(parent.ys),
            unit == tree_size((r - 1) as nat),
            frame_ok(parent.frame(), xs, ys_all),
            tied <==> is_tied(xs, pa.len() as int),
            stack_ok(base, xs, ys_all, last),
            stack.len() >= base.len(),
            forall|k: int| 0 <= k < base.len() ==> #[trigger] frames(stack@)[k] == base[k],
            forall|k: int|
                base.len() <= k < stack.len() ==> child_ok(
                    #[trigger] frames(stack@)[k],
                    pa,
                    py,
                    i as int,
                    xs,
                    ys_all,
                ),
            forall|k1: int, k2: int|
                base.len() <= k1 < k2 < stack.len() ==> (#[trigger] frames(stack@)[k2]).acc[pa.len() as int]
                    < (#[trigger] frames(stack@)[k1]).acc[pa.len() as int],
            budget(frames(stack@)) + i * unit <= budget(base) + r * unit,
            forall|idx: int|
                i <= idx < r && allowed(tied, pa, #[trigger] py[idx]) ==> has_node(
                    frames(stack@),
                    base.len() as int,
                    pa.push(py[idx]),
                ) || (i > 0 && py[i - 1] == py[idx]),
        decreases i,
    {
        let ghost before = stack@;
        let ghost i0 = i as int;
        assert(i * unit == (i - 1) * unit + unit) by (nonlinear_arith);
        i = i - 1;
        let y = buf_get(&parent.ys, i);
        let first_of_run = i == 0 || buf_get(&parent.ys, i - 1) != y;
        if first_of_run && (!tied || y >= buf_get(&parent.acc, acc_len - 1)) {
            let ys = without(&parent.ys, i);
            let mut acc = buf_clone(&parent.acc);
            buf_push(&mut acc, y);
            let child = Inner { acc, ys };
            proof {
                let f = child.frame();
                lemma_move_keeps_items(pa, py, i as int);
                assert(f.acc.subrange(0, pa.len() as int) =~= pa);
                assert(sorted(f.ys));
                assert(ties_kept(xs, f.acc));
                assert forall|m: int| 0 <= m < i implies py[m] < f.acc[pa.len() as int] by {
                    assert(py[m] <= py[i - 1]);
                    assert(py[i - 1] <= py[i as int]);
                }
                assert(child_ok(f, pa, py, i as int, xs, ys_all));
                assert(frames(before.push(child)) =~= frames(before).push(f));
                lemma_budget_push(frames(before), f);
            }
            stack.push(child);
            proof {
                assert forall|k: int| base.len() <= k < stack.len() implies child_ok(
                    #[trigger] frames(stack@)[k],
                    pa,
                    py,
                    i as int,
                    xs,
                    ys_all,
                ) by {
                    if k < before.len() {
                        assert(frames(stack@)[k] == frames(before)[k]);
                    }
                }
                assert forall|k1: int, k2: int|
                    base.len() <= k1 < k2 < stack.len() implies (#[trigger] frames(
                    stack@,
                )[k2]).acc[pa.len() as int] < (#[trigger] frames(stack@)[k1]).acc[pa.len() as int] by {
                    assert(frames(stack@)[k1] == frames(before)[k1]);
                    if k2 < before.len() {
                        assert(frames(stack@)[k2] == frames(before)[k2]);
                    }
                }
                assert(frames(stack@)[before.len() as int].acc == pa.push(y));
                assert forall|idx: int|
                    i <= idx < r && allowed(tied, pa, #[trigger] py[idx]) implies has_node(
                    frames(stack@),
                    base.len() as int,
                    pa.push(py[idx]),
                ) || (i > 0 && py[i - 1] == py[idx]) by {
                    if py[idx] == y {
                        assert(frames(stack@)[before.len() as int].acc == pa.push(py[idx]));
                    } else {
                        assert(has_node(frames(before), base.len() as int, pa.push(py[idx])));
                        let k = choose|k: int|
                            base.len() <= k < frames(before).len() && (#[trigger] frames(
                                before,
                            )[k]).acc == pa.push(py[idx]);
                        assert(frames(stack@)[k] == frames(before)[k]);
                    }
                }
            }
        } else {
            proof {
                assert forall|idx: int|
                    i <= idx < r && allowed(tied, pa, #[trigger] py[idx]) implies has_node(
                    frames(stack@),
                    base.len() as int,
                    pa.push(py[idx]),
                ) || (i > 0 && py[i - 1] == py[idx]) by {
                    if py[idx] == y {
                        assert(allowed(tied, pa, y));
                        assert(i > 0 && py[i - 1] == y);
                    }
                }
            }
        }
    }
    proof {
        assert forall|a: Seq<u8>| #[trigger]
            is_assignment(a, xs, ys_all) && begins_with(a, pa) implies reaches(
            frames(stack@),
            base.len() as int,
            a,
        ) by {
            let m = pa.len() as int;
            let z = a[m];
            lemma_next_choice_is_left(pa, py, a);
            let idx = choose|idx: int| 0 <= idx < py.len() && py[idx] == z;
            assert forall|t: int| 0 <= t < m implies a[t] == pa[t] by {
                assert(a.subrange(0, m)[t] == a[t]);
            }
            if tied {
                assert(is_tied(xs, m));
                assert(a[m - 1] <= a[m]);
            }
            assert(allowed(tied, pa, py[idx]));
            assert(has_node(frames(stack@), base.len() as int, pa.push(py[idx])));
            let k = choose|k: int|
                base.len() <= k < frames(stack@).len() && (#[trigger] frames(stack@)[k]).acc
                    == pa.push(z);
            assert(a.subrange(0, m + 1) =~= pa.push(z));
            assert(begins_with(a, frames(stack@)[k].acc));
        }
        assert(tree_size(r as nat) == 1 + r * unit);
        let done = frames(stack@);
        assert forall|k: int| 0 <= k < done.len() implies frame_ok(
            #[trigger] done[k],
            xs,
            ys_all,
        ) by {
            if k < base.len() {
                assert(done[k] == base[k]);
            }
        }
        assert forall|k1: int, k2: int| 0 <= k1 < k2 < done.len() implies precedes(
            #[trigger] done[k2].acc,
            #[trigger] done[k1].acc,
        ) by {
            if k2 < base.len() {
                assert(done[k1] == base[k1] && done[k2] == base[k2]);
            } else if k1 < base.len() {
                assert(done[k1] == base[k1]);
                lemma_precedes_longer_left(pa, done[k2].acc, done[k1].acc);
            } else {
                let a = done[k2].acc;
                let b = done[k1].acc;
                assert forall|m: int| 0 <= m < pa.len() implies a[m] == b[m] by {
                    assert(a.subrange(0, pa.len() as int)[m] == a[m]);
                    assert(b.subrange(0, pa.len() as int)[m] == b[m]);
                }
                assert(diverge_at(a, b, pa.len() as int));
            }
        }
        if let Some(l) = last {
            assert forall|k: int| 0 <= k < done.len() implies precedes(l, #[trigger] done[k].acc) by {
                if k < base.len() {
                    assert(done[k] == base[k]);
                } else {
                    lemma_precedes_longer_right(l, pa, done[k].acc);
                }
            }
        }
    }
}

/// Enumerates the ordered pairings of two sorted sequences.
pub struct OrderedPairings {
    inner: Vec<Inner>,
    xs: Vec<u8>,
    ys_all: Ghost<Seq<u8>>,
    last: Ghost<Option<Seq<u8>>>,
}

impl OrderedPairings {
    /// The search stack, top last.
    pub closed spec fn stack(&self) -> Seq<Frame> {
        frames(self.inner@)
    }

    /// The first sequence: the `x` of each position.
    pub closed spec fn xs(&self) -> Seq<u8> {
        self.xs@
    }

    /// The second sequence: the `y`s that are handed out.
    pub closed spec fn ys(&self) -> Seq<u8> {
        self.ys_all@
    }

    /// The `y`s of the pairing that was handed out last.
    pub closed spec fn last(&self) -> Option<Seq<u8>> {
        self.last@
    }

    /// The search stack is sound, and loses no assignment that is still to
    /// come.
    pub open spec fn wf(&self) -> bool {
        &&& stack_ok(self.stack(), self.xs(), self.ys(), self.last())
        &&& self.ys().len() > 0 ==> covers(self.stack(), self.xs(), self.ys(), self.last())
    }

    /// Nothing is left to visit.
    pub open spec fn is_done(&self) -> bool {
        self.stack().len() == 0
    }

    /// Starts the enumeration. Both inputs are sorted and of one length, which
    /// is at most ten. Of two empty sequences there is no pairing.
    pub fn new(xs: &[u8], ys: &[u8]) -> (res: Self)
        requires
            xs@.len() == ys@.len(),
            ys@.len() <= 10,
            sorted(xs@),
            sorted(ys@),
        ensures
            res.wf(),
            res.xs() == xs@,
            res.ys() == ys@,
            res.last() is None,
            ys@.len() == 0 ==> res.is_done(),
    {
        let n_ys = ys.len();
        let mut all = buf_new();
        let mut j: usize = 0;
        while j < n_ys
            invariant
                j <= n_ys,
                n_ys == ys@.len(),
                n_ys <= 10,
                held(all) == ys@.subrange(0, j as int),
            decreases n_ys - j,
        {
            let ghost before = held(all);
            buf_push(&mut all, ys[j]);
            assert(before.push(ys@[j as int]) =~= ys@.subrange(0, j + 1));
            j = j + 1;
        }
        assert(ys@.subrange(0, n_ys as int) =~= ys@);
        let mut inner: Vec<Inner> = Vec::new();
        if n_ys != 0 {
            let root = Inner { acc: buf_new(), ys: all };
            assert(root.frame().acc + root.frame().ys =~= ys@);
            push_children(&mut inner, &root, false, Ghost(xs@), Ghost(ys@), Ghost(None));
            assert forall|a: Seq<u8>| #[trigger]
                is_assignment(a, xs@, ys@) implies reaches(frames(inner@), 0, a) by {
                assert(a.subrange(0, 0) =~= Seq::<u8>::empty());
                assert(begins_with(a, root.frame().acc));
            }
        }
        let xs = slice_to_vec(xs);
        OrderedPairings { inner, xs, ys_all: Ghost(ys@), last: Ghost(None) }
    }

    /// Hands out the next pairing: each `x` in its place with a `y` of its own,
    /// the `y`s being those given, equal `x`s next to each other with their
    /// `y`s in non-decreasing order. Of the pairings whose `y`s come
    /// lexicographically after those of the pairing before, it is the first.
    /// `None` when no such pairing is left, and from then on.
    pub fn next(&mut self) -> (res: Option<Vec<(u8, u8)>>)
        requires
            old(self).wf(),
        ensures
            final(self).wf(),
            final(self).xs() == old(self).xs(),
            final(self).ys() == old(self).ys(),
            match res {
                Some(p) => {
                    &&& firsts(p@) == old(self).xs()
                    &&& is_next(seconds(p@), old(self).xs(), old(self).ys(), old(self).last())
                    &&& final(self).last() == Some(seconds(p@))
                    &&& budget(final(self).stack()) < budget(old(self).stack())
                },
                None => {
                    &&& final(self).is_done()
                    &&& final(self).last() == old(self).last()
                    &&& old(self).ys().len() > 0 ==> none_left(
                        old(self).xs(),
                        old(self).ys(),
                        old(self).last(),
                    )
                },
            },
            old(self).is_done() ==> res is None,
    {
        loop
            invariant
                self.wf(),
                self.xs() == old(self).xs(),
                self.ys() == old(self).ys(),
                self.last() == old(self).last(),
                budget(self.stack()) <= budget(old(self).stack()),
                self.stack().len() > 0 ==> old(self).stack().len() > 0,
            decreases budget(self.stack()),
        {
            let ghost before = self.inner@;
            let ghost xs = self.xs@;
            let ghost ys = self.ys_all@;
            let ghost last = self.last@;
            let inner = match self.inner.pop() {
                Some(f) => f,
                None => {
                    proof {
                        if ys.len() > 0 {
                            assert forall|a: Seq<u8>| #[trigger]
                                is_assignment(a, xs, ys) implies !comes_after(last, a) by {
                                if comes_after(last, a) {
                                    assert(reaches(frames(before), 0, a));
                                }
                            }
                        }
                    }
                    return None;
                },
            };
            let ghost top = before.len() - 1;
            proof {
                assert(frames(self.inner@) =~= frames(before).drop_last());
                assert(inner.frame() == frames(before).last());
                assert(frame_ok(frames(before)[before.len() - 1], self.xs@, self.ys_all@));
                assert forall|i: int| 0 <= i < self.inner.len() implies precedes(
                    inner.frame().acc,
                    #[trigger] frames(self.inner@)[i].acc,
                ) by {
                    assert(frames(self.inner@)[i] == frames(before)[i]);
                    assert(precedes(frames(before)[before.len() - 1].acc, frames(before)[i].acc));
                }
                assert(stack_ok(frames(self.inner@), self.xs@, self.ys_all@, self.last@)) by {
                    assert forall|i: int| 0 <= i < self.inner.len() implies frames(
                        self.inner@,
                    )[i] == frames(before)[i] by {}
                }
            }
            let n_inner_ys = buf_len(&inner.ys);
            if n_inner_ys == 0 {
                let n = self.xs.len();
                let ghost acc = held(inner.acc);
                assert(acc + inner.frame().ys =~= acc);
                let mut out: Vec<(u8, u8)> = Vec::new();
                let mut i: usize = 0;
                while i < n
                    invariant
                        i <= n,
                        n == self.xs.len(),
                        n == acc.len(),
                        acc == held(inner.acc),
                        out.len() == i,
                        forall|k: int| 0 <= k < i ==> out@[k] == (self.xs@[k], acc[k]),
                    decreases n - i,
                {
                    out.push((self.xs[i], buf_get(&inner.acc, i)));
                    i = i + 1;
                }
                proof {
                    assert(firsts(out@) =~= self.xs@);
                    assert(seconds(out@) =~= acc);
                    assert(frames(before)[top].acc == acc);
                    if ys.len() > 0 {
                        assert forall|a: Seq<u8>| #[trigger]
                            is_assignment(a, xs, ys) && comes_after(last, a) implies (a == acc
                            || precedes(acc, a)) && (a != acc ==> reaches(
                            frames(self.inner@),
                            0,
                            a,
                        )) by {
                            assert(reaches(frames(before), 0, a));
                            let k = choose|k: int|
                                0 <= k < frames(before).len() && begins_with(
                                    a,
                                    (#[trigger] frames(before)[k]).acc,
                                );
                            if k == top {
                                assert(a.subrange(0, a.len() as int) =~= a);
                            } else {
                                assert(frames(self.inner@)[k] == frames(before)[k]);
                                assert(precedes(frames(before)[top].acc, frames(before)[k].acc));
                                lemma_precedes_longer_right(acc, frames(before)[k].acc, a);
                            }
                        }
                        assert forall|a: Seq<u8>| #[trigger]
                            is_assignment(a, xs, ys) && comes_after(Some(acc), a) implies reaches(
                            frames(self.inner@),
                            0,
                            a,
                        ) by {
                            if let Some(l) = last {
                                lemma_precedes_transitive(l, acc, a);
                            }
                            lemma_precedes_distinct(acc, a);
                        }
                    }
                }
                self.last = Ghost(Some(acc));
                return Some(out);
            } else {
                let acc_len = buf_len(&inner.acc);
                let tied = acc_len != 0 && self.xs[acc_len - 1] == self.xs[acc_len];
                let ghost popped = self.inner@;
                push_children(
                    &mut self.inner,
                    &inner,
                    tied,
                    Ghost(self.xs@),
                    Ghost(self.ys_all@),
                    Ghost(self.last@),
                );
                proof {
                    assert forall|a: Seq<u8>| #[trigger]
                        is_assignment(a, xs, ys) && comes_after(last, a) implies reaches(
                        frames(self.inner@),
                        0,
                        a,
                    ) by {
                        assert(reaches(frames(before), 0, a));
                        let k = choose|k: int|
                            0 <= k < frames(before).len() && begins_with(
                                a,
                                (#[trigger] frames(before)[k]).acc,
                            );
                        if k == top {
                            assert(begins_with(a, inner.frame().acc));
                            assert(reaches(frames(self.inner@), popped.len() as int, a));
                        } else {
                            assert(frames(popped)[k] == frames(before)[k]);
                            assert(frames(self.inner@)[k] == frames(popped)[k]);
                        }
                    }
                }
            }
        }
    }
}

} // verus!
