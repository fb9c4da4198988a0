use vstd::prelude::*;
use vstd::set_lib::lemma_len_subset;
use crate::window::{Position, Window, WindowId};

verus! {

/// The records of a registry, by id.
pub type Windows = Map<WindowId, Window>;

/// Whether the position of `w` is settled after at most `n` steps up the chain
/// of parents. The chain is followed no further than a window with a fixed
/// position, or one whose parent has no record.
pub open spec fn settles_within(windows: Windows, w: Window, n: nat) -> bool
    decreases n,
{
    ||| w.position is Fixed
    ||| !windows.contains_key(w.parent)
    ||| (n > 0 && settles_within(windows, windows[w.parent], (n - 1) as nat))
}

/// Whether the chain of parents that decides the position of `w` comes to an
/// end: no cycle lies on it.
pub open spec fn resolvable(windows: Windows, w: Window) -> bool {
    exists|n: nat| settles_within(windows, w, n)
}

/// The number of ancestors that decide the position of `w`.
pub open spec fn rank(windows: Windows, w: Window) -> nat {
    choose|n: nat| least_settling(windows, w, n)
}

/// Whether `n` is the smallest number of steps within which `w` settles.
pub open spec fn least_settling(windows: Windows, w: Window, n: nat) -> bool {
    &&& settles_within(windows, w, n)
    &&& forall|k: nat| k < n ==> !settles_within(windows, w, k)
}

/// The point directly below `parent`, flush with its left edge, when `parent`
/// stands at `at`.
pub open spec fn below(at: (nat, nat), parent: Window) -> (nat, nat) {
    (at.0, (at.1 + parent.size.1) as nat)
}

/// Where `rule` puts a window whose parent ends at `origin`.
pub open spec fn apply_rule(rule: Position, origin: (nat, nat)) -> (nat, nat) {
    match rule {
        Position::Fixed(x, y) => (x as nat, y as nat),
        Position::Relative(dx, dy) => ((origin.0 + dx) as nat, (origin.1 + dy) as nat),
        Position::Normal => origin,
    }
}

/// The absolute position of `w`: that of its top-left corner on the device. A
/// window whose parent has no record is placed as if its parent stood at
/// `(0, 0)` with no size.
pub open spec fn position(windows: Windows, w: Window) -> (nat, nat)
    decreases rank(windows, w),
    when resolvable(windows, w)
    via position_decreases
{
    if w.position is Fixed || !windows.contains_key(w.parent) {
        apply_rule(w.position, (0, 0))
    } else {
        apply_rule(w.position, below(position(windows, windows[w.parent]), windows[w.parent]))
    }
}

#[via_fn]
proof fn position_decreases(windows: Windows, w: Window) {
    if !(w.position is Fixed) && windows.contains_key(w.parent) {
        lemma_rank_of_parent(windows, w);
    }
}

/// A window that settles within some number of steps settles within any larger
/// number.
pub proof fn lemma_settles_later(windows: Windows, w: Window, n: nat, later: nat)
    requires
        settles_within(windows, w, n),
        n <= later,
    ensures
        settles_within(windows, w, later),
    decreases n,
{
    if !(w.position is Fixed) && windows.contains_key(w.parent) {
        lemma_settles_later(windows, windows[w.parent], (n - 1) as nat, (later - 1) as nat);
    }
}

/// Of the numbers of steps within which a window settles, one is the least.
proof fn lemma_least_exists(windows: Windows, w: Window, n: nat)
    requires
        settles_within(windows, w, n),
    ensures
        exists|l: nat| l <= n && least_settling(windows, w, l),
    decreases n,
{
    if n > 0 && settles_within(windows, w, (n - 1) as nat) {
        lemma_least_exists(windows, w, (n - 1) as nat);
    } else {
        assert forall|k: nat| k < n implies !settles_within(windows, w, k) by {
            if settles_within(windows, w, k) {
                lemma_settles_later(windows, w, k, (n - 1) as nat);
            }
        }
        assert(least_settling(windows, w, n));
    }
}

/// The rank of a resolvable window is the least number of steps within which
/// it settles.
pub proof fn lemma_rank(windows: Windows, w: Window)
    requires
        resolvable(windows, w),
    ensures
        least_settling(windows, w, rank(windows, w)),
{
    let n = choose|n: nat| settles_within(windows, w, n);
    lemma_least_exists(windows, w, n);
}

/// Below a resolvable window that looks at its parent, the parent is
/// resolvable too, and its rank is smaller.
pub proof fn lemma_rank_of_parent(windows: Windows, w: Window)
    requires
        resolvable(windows, w),
        !(w.position is Fixed),
        windows.contains_key(w.parent),
    ensures
        resolvable(windows, windows[w.parent]),
        rank(windows, windows[w.parent]) < rank(windows, w),
{
    lemma_rank(windows, w);
    let r = rank(windows, w);
    let parent = windows[w.parent];
    assert(settles_within(windows, parent, (r - 1) as nat));
    lemma_rank(windows, parent);
    if rank(windows, parent) >= r {
        assert(!settles_within(windows, parent, (r - 1) as nat));
    }
}

/// Below a resolvable window that looks at its parent, the rank of the parent
/// is smaller by one.
pub proof fn lemma_rank_step(windows: Windows, w: Window)
    requires
        resolvable(windows, w),
        !(w.position is Fixed),
        windows.contains_key(w.parent),
    ensures
        resolvable(windows, windows[w.parent]),
        rank(windows, w) == rank(windows, windows[w.parent]) + 1,
{
    lemma_rank_of_parent(windows, w);
    lemma_rank(windows, w);
    lemma_rank(windows, windows[w.parent]);
    let below = rank(windows, windows[w.parent]);
    if below + 1 < rank(windows, w) {
        assert(settles_within(windows, w, below + 1));
    }
}

/// The ids of the windows on the chain of parents that decides the position
/// of `w`.
pub open spec fn chain(windows: Windows, w: Window) -> Set<WindowId>
    decreases rank(windows, w),
    when resolvable(windows, w)
    via chain_decreases
{
    if w.position is Fixed || !windows.contains_key(w.parent) {
        Set::empty()
    } else {
        chain(windows, windows[w.parent]).insert(w.parent)
    }
}

#[via_fn]
proof fn chain_decreases(windows: Windows, w: Window) {
    if !(w.position is Fixed) && windows.contains_key(w.parent) {
        lemma_rank_of_parent(windows, w);
    }
}

/// Each window on the chain of `w` is on file, and its rank is smaller than
/// that of `w`.
proof fn lemma_chain_ranks(windows: Windows, w: Window, id: WindowId)
    requires
        resolvable(windows, w),
        chain(windows, w).contains(id),
    ensures
        windows.contains_key(id),
        resolvable(windows, windows[id]),
        rank(windows, windows[id]) < rank(windows, w),
    decreases rank(windows, w),
{
    lemma_rank_of_parent(windows, w);
    if id != w.parent {
        lemma_chain_ranks(windows, windows[w.parent], id);
    }
}

/// The chain of `w` holds as many windows as the rank of `w` says, all of
/// them on file.
proof fn lemma_chain_len(windows: Windows, w: Window)
    requires
        resolvable(windows, w),
    ensures
        chain(windows, w).finite(),
        chain(windows, w).len() == rank(windows, w),
        chain(windows, w).subset_of(windows.dom()),
    decreases rank(windows, w),
{
    if w.position is Fixed || !windows.contains_key(w.parent) {
        assert(settles_within(windows, w, 0));
        lemma_rank(windows, w);
    } else {
        let parent = windows[w.parent];
        lemma_rank_step(windows, w);
        lemma_chain_len(windows, parent);
        if chain(windows, parent).contains(w.parent) {
            lemma_chain_ranks(windows, parent, w.parent);
        }
    }
}

/// Among finitely many records, the rank of a resolvable window is at most
/// the number of records.
pub proof fn lemma_rank_bound(windows: Windows, w: Window)
    requires
        resolvable(windows, w),
        windows.dom().finite(),
    ensures
        rank(windows, w) <= windows.dom().len(),
{
    lemma_chain_len(windows, w);
    lemma_len_subset(chain(windows, w), windows.dom());
}

/// A window whose parent is resolvable is resolvable itself.
pub proof fn lemma_resolvable_below(windows: Windows, w: Window)
    requires
        windows.contains_key(w.parent) ==> resolvable(windows, windows[w.parent]),
    ensures
        resolvable(windows, w),
{
    if windows.contains_key(w.parent) {
        let n = choose|n: nat| settles_within(windows, windows[w.parent], n);
        assert(settles_within(windows, w, n + 1));
    } else {
        assert(settles_within(windows, w, 0));
    }
}

/// A window with a fixed position stands at that position, whatever its
/// ancestors are, and whether or not its parent has a record.
pub proof fn law_fixed_position(windows: Windows, w: Window, x: usize, y: usize)
    requires
        w.position == Position::Fixed(x, y),
    ensures
        resolvable(windows, w),
        position(windows, w) == (x as nat, y as nat),
{
    assert(settles_within(windows, w, 0));
}

/// A window without a record for its parent is placed as if the parent stood
/// at `(0, 0)` with no size: a relative window stands at its own offset, a
/// normal one at `(0, 0)`.
pub proof fn law_position_without_parent(windows: Windows, w: Window)
    requires
        !windows.contains_key(w.parent),
    ensures
        resolvable(windows, w),
        position(windows, w) == apply_rule(w.position, (0, 0)),
{
    assert(settles_within(windows, w, 0));
}

/// A window with a relative position `(dx, dy)`, below a parent that stands at
/// `(px, py)` and is `ph` high, stands at `(px + dx, py + ph + dy)`.
pub proof fn law_relative_position(windows: Windows, w: Window, dx: usize, dy: usize)
    requires
        w.position == Position::Relative(dx, dy),
        windows.contains_key(w.parent),
        resolvable(windows, windows[w.parent]),
    ensures
        resolvable(windows, w),
        position(windows, w) == (
            (position(windows, windows[w.parent]).0 + dx) as nat,
            (position(windows, windows[w.parent]).1 + windows[w.parent].size.1 + dy) as nat,
        ),
{
    lemma_resolvable_below(windows, w);
}

/// A window with a normal position stands directly below its parent: at the
/// parent's left edge, and as far down as the parent reaches.
pub proof fn law_normal_position(windows: Windows, w: Window)
    requires
        w.position == Position::Normal,
        windows.contains_key(w.parent),
        resolvable(windows, windows[w.parent]),
    ensures
        resolvable(windows, w),
        position(windows, w) == (
            position(windows, windows[w.parent]).0,
            (position(windows, windows[w.parent]).1 + windows[w.parent].size.1) as nat,
        ),
{
    lemma_resolvable_below(windows, w);
}

/// In a chain of a window `top` at `(0, 0)`, a normal window `a` below it and
/// a normal window `b` below `a`: `a` stands at `(0, h0)` and `b` at
/// `(0, h0 + h1)`, where `h0` is the height of `top` and `h1` that of `a`.
pub proof fn law_normal_chain(windows: Windows, top: WindowId, a: WindowId, b: WindowId)
    requires
        windows.contains_key(top),
        windows.contains_key(a),
        windows.contains_key(b),
        resolvable(windows, windows[top]),
        position(windows, windows[top]) == (0nat, 0nat),
        windows[a].position == Position::Normal,
        windows[a].parent == top,
        windows[b].position == Position::Normal,
        windows[b].parent == a,
    ensures
        resolvable(windows, windows[a]),
        resolvable(windows, windows[b]),
        position(windows, windows[a]) == (0nat, windows[top].size.1 as nat),
        position(windows, windows[b]) == (0nat, (windows[top].size.1 + windows[a].size.1) as nat),
{
    law_normal_position(windows, windows[a]);
    law_normal_position(windows, windows[b]);
}

/// Whether two sets of records hold the same windows with the same rules and
/// parents: they differ in nothing that decides which chains come to an end.
pub open spec fn same_shape(a: Windows, b: Windows) -> bool {
    &&& a.dom() == b.dom()
    &&& forall|id: WindowId| #[trigger]
        a.contains_key(id) ==> a[id].position == b[id].position && a[id].parent == b[id].parent
}

/// Whether a chain of parents comes to an end does not depend on sizes.
pub proof fn lemma_same_shape_settles(a: Windows, b: Windows, w: Window, v: Window, n: nat)
    requires
        same_shape(a, b),
        w.position == v.position,
        w.parent == v.parent,
    ensures
        settles_within(a, w, n) == settles_within(b, v, n),
    decreases n,
{
    if n > 0 && a.contains_key(w.parent) {
        lemma_same_shape_settles(a, b, a[w.parent], b[w.parent], (n - 1) as nat);
    }
}

/// A window that is resolvable among some records is resolvable among any
/// records of the same shape, whatever its own size.
pub proof fn lemma_same_shape_resolvable(a: Windows, b: Windows, w: Window, v: Window)
    requires
        same_shape(a, b),
        w.position == v.position,
        w.parent == v.parent,
        resolvable(a, w),
    ensures
        resolvable(b, v),
{
    let n = choose|n: nat| settles_within(a, w, n);
    lemma_same_shape_settles(a, b, w, v, n);
}

/// Having the same shape goes both ways.
pub proof fn lemma_same_shape_back(a: Windows, b: Windows)
    requires
        same_shape(a, b),
    ensures
        same_shape(b, a),
{
}

/// Records of the same shape as records of the same shape are of the same
/// shape.
pub proof fn lemma_same_shape_chain(a: Windows, b: Windows, c: Windows)
    requires
        same_shape(a, b),
        same_shape(b, c),
    ensures
        same_shape(a, c),
{
}

/// Whether every window on file has a position: no cycle of parents decides
/// one.
pub open spec fn acyclic(windows: Windows) -> bool {
    forall|id: WindowId| #[trigger] windows.contains_key(id) ==> resolvable(windows, windows[id])
}

/// Records of the same shape are acyclic together.
pub proof fn lemma_same_shape_acyclic(a: Windows, b: Windows)
    requires
        same_shape(a, b),
        acyclic(a),
    ensures
        acyclic(b),
{
    assert forall|id: WindowId| #[trigger] b.contains_key(id) implies resolvable(b, b[id]) by {
        lemma_same_shape_resolvable(a, b, a[id], b[id]);
    }
}

/// Whether every window on the chain of parents that decides the position of
/// `w` is one of `settled`.
pub open spec fn chain_within(windows: Windows, w: Window, settled: Set<WindowId>) -> bool
    decreases rank(windows, w),
    when resolvable(windows, w)
    via chain_within_decreases
{
    ||| w.position is Fixed
    ||| !windows.contains_key(w.parent)
    ||| (settled.contains(w.parent) && chain_within(windows, windows[w.parent], settled))
}

#[via_fn]
proof fn chain_within_decreases(windows: Windows, w: Window, settled: Set<WindowId>) {
    if !(w.position is Fixed) && windows.contains_key(w.parent) {
        lemma_rank_of_parent(windows, w);
    }
}

/// A chain that lies within some windows lies within any more, and the sizes
/// on record play no part in it.
pub proof fn lemma_chain_within_wider(
    a: Windows,
    b: Windows,
    w: Window,
    v: Window,
    settled: Set<WindowId>,
    wider: Set<WindowId>,
)
    requires
        same_shape(a, b),
        w.position == v.position,
        w.parent == v.parent,
        resolvable(a, w),
        chain_within(a, w, settled),
        settled.subset_of(wider),
    ensures
        resolvable(b, v),
        chain_within(b, v, wider),
    decreases rank(a, w),
{
    lemma_same_shape_resolvable(a, b, w, v);
    if !(w.position is Fixed) && a.contains_key(w.parent) {
        lemma_rank_of_parent(a, w);
        lemma_chain_within_wider(a, b, a[w.parent], b[w.parent], settled, wider);
    }
}

/// Two sets of records of the same shape that agree on the records of
/// `settled` give the same position to a window whose chain lies within
/// `settled`.
pub proof fn lemma_position_agrees(a: Windows, b: Windows, w: Window, v: Window, settled: Set<WindowId>)
    requires
        same_shape(a, b),
        w.position == v.position,
        w.parent == v.parent,
        resolvable(a, w),
        chain_within(a, w, settled),
        forall|id: WindowId| #[trigger] settled.contains(id) ==> a[id] == b[id],
    ensures
        resolvable(b, v),
        position(a, w) == position(b, v),
    decreases rank(a, w),
{
    lemma_same_shape_resolvable(a, b, w, v);
    if !(w.position is Fixed) && a.contains_key(w.parent) {
        lemma_rank_of_parent(a, w);
        lemma_position_agrees(a, b, a[w.parent], b[w.parent], settled);
    }
}

} // verus!
