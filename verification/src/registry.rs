use vstd::prelude::*;
use crate::layout::{
    acyclic, apply_rule, law_position_without_parent, lemma_settles_later, position, resolvable,
    settles_within, Windows,
};
use crate::window::{Position, Window, WindowId};

verus! {

/// What a display manager holds, as mathematics sees it: the records by id, and
/// the id that the next new window gets.
pub struct Registry {
    pub windows: Windows,
    pub next: WindowId,
}

/// The id that stands for "no parent". The registry never hands it out.
pub open spec fn root_id() -> WindowId {
    0
}

/// The record of a window that was just created: no size yet, no focus.
pub open spec fn new_window(id: WindowId, parent: WindowId, rule: Position) -> Window {
    Window { position: rule, size: (0, 0), z: 0, focus: false, id, parent }
}

impl Registry {
    /// Each record is filed under its own id, and every id on file was handed
    /// out before: it is neither the root id nor one still to come.
    pub open spec fn wf(self) -> bool {
        &&& self.next >= 1
        &&& forall|id: WindowId| #[trigger]
            self.windows.contains_key(id) ==> 1 <= id < self.next && self.windows[id].id == id
    }

    /// The registry with no window in it.
    pub open spec fn empty() -> Registry {
        Registry { windows: Map::empty(), next: 1 }
    }

    /// The registry after a window with the given parent and rule was added. The
    /// new window gets the id `self.next`.
    pub open spec fn add_child(self, parent: WindowId, rule: Position) -> Registry {
        Registry {
            windows: self.windows.insert(self.next, new_window(self.next, parent, rule)),
            next: (self.next + 1) as WindowId,
        }
    }

    /// The registry without the record of `id`. No other record changes: the
    /// children of `id` keep naming it as their parent.
    pub open spec fn remove_child(self, id: WindowId) -> Registry {
        Registry { windows: self.windows.remove(id), next: self.next }
    }

    /// The registry with `w` on file under `id`.
    pub open spec fn with_record(self, id: WindowId, w: Window) -> Registry {
        Registry { windows: self.windows.insert(id, w), next: self.next }
    }

    /// The record of `id`, if there is one.
    pub open spec fn get(self, id: WindowId) -> Option<Window> {
        if self.windows.contains_key(id) {
            Some(self.windows[id])
        } else {
            None
        }
    }

    /// The ids of the windows that name `id` as their parent.
    pub open spec fn children(self, id: WindowId) -> Set<WindowId> {
        Set::new(|child: WindowId| self.windows.contains_key(child) && self.windows[child].parent == id)
    }

    /// The record of the parent of `w`, if there is one.
    pub open spec fn parent_window(self, w: Window) -> Option<Window> {
        self.get(w.parent)
    }

    /// The absolute position of `w`.
    pub open spec fn position(self, w: Window) -> (nat, nat) {
        position(self.windows, w)
    }

    /// Whether the position of `w` can be worked out: it is fixed, or the
    /// chain of parents that decides it comes to an end, at a position that a
    /// `usize` can hold.
    pub open spec fn locates(self, w: Window) -> bool {
        w.position is Fixed || (self.wf() && resolvable(self.windows, w) && self.position(w).0
            <= usize::MAX && self.position(w).1 <= usize::MAX)
    }

    /// Every window on file has a position: no cycle of parents decides one.
    pub open spec fn acyclic(self) -> bool {
        acyclic(self.windows)
    }

    /// Every window on file has a larger id than its parent: it was created
    /// after its parent, or below the root id. Such a registry is acyclic
    /// (`lemma_ordered_acyclic`).
    pub open spec fn ordered(self) -> bool {
        forall|id: WindowId| #[trigger] self.windows.contains_key(id) ==> self.windows[id].parent < id
    }

    /// The registry after one window was added for each of `requests`, in
    /// order. A request is the parent and the rule of the new window.
    pub open spec fn add_children(self, requests: Seq<(WindowId, Position)>) -> Registry
        decreases requests.len(),
    {
        if requests.len() == 0 {
            self
        } else {
            self.add_children(requests.drop_last()).add_child(requests.last().0, requests.last().1)
        }
    }

    /// The id that the `i`-th of `requests` is answered with.
    pub open spec fn id_given(self, requests: Seq<(WindowId, Position)>, i: int) -> WindowId {
        self.add_children(requests.take(i)).next
    }
}

/// Adding windows moves the next id up by one for each, as long as ids last.
pub proof fn lemma_add_children_next(r: Registry, requests: Seq<(WindowId, Position)>)
    requires
        r.next + requests.len() <= u32::MAX,
    ensures
        r.add_children(requests).next == r.next + requests.len(),
    decreases requests.len(),
{
    if requests.len() > 0 {
        lemma_add_children_next(r, requests.drop_last());
    }
}

/// Whatever windows are added one after another, each gets a larger id than
/// the one before, and none gets the root id.
pub proof fn law_ids_rise(r: Registry, requests: Seq<(WindowId, Position)>, i: int, j: int)
    requires
        r.wf(),
        r.next + requests.len() <= u32::MAX,
        0 <= i < j < requests.len(),
    ensures
        r.id_given(requests, i) < r.id_given(requests, j),
        r.id_given(requests, i) != root_id(),
        r.id_given(requests, j) != root_id(),
{
    lemma_add_children_next(r, requests.take(i));
    lemma_add_children_next(r, requests.take(j));
}

/// Once a window is removed, no record is found for its id.
pub proof fn law_removed_is_absent(r: Registry, id: WindowId)
    ensures
        r.remove_child(id).get(id).is_none(),
        forall|other: WindowId| other != id ==> r.remove_child(id).get(other) == r.get(other),
{
}

/// Removing a window leaves its children on file, still naming the removed id
/// as their parent. From then on such a child is placed as a window without a
/// parent.
pub proof fn law_orphans(r: Registry, id: WindowId, child: WindowId)
    requires
        r.windows.contains_key(child),
        r.windows[child].parent == id,
        child != id,
    ensures
        r.remove_child(id).get(child) == Some(r.windows[child]),
        r.remove_child(id).parent_window(r.windows[child]).is_none(),
        resolvable(r.remove_child(id).windows, r.windows[child]),
        r.remove_child(id).position(r.windows[child]) == apply_rule(r.windows[child].position, (0, 0)),
{
    law_position_without_parent(r.remove_child(id).windows, r.windows[child]);
}

/// In a registry where each window has a larger id than its parent, the window
/// `id` settles within `id` steps.
proof fn lemma_ordered_settles(r: Registry, id: WindowId)
    requires
        r.ordered(),
        r.windows.contains_key(id),
    ensures
        settles_within(r.windows, r.windows[id], id as nat),
    decreases id,
{
    let parent = r.windows[id].parent;
    if r.windows.contains_key(parent) {
        lemma_ordered_settles(r, parent);
        lemma_settles_later(r.windows, r.windows[parent], parent as nat, (id - 1) as nat);
    }
}

/// A registry where each window has a larger id than its parent is acyclic.
pub proof fn lemma_ordered_acyclic(r: Registry)
    requires
        r.ordered(),
    ensures
        r.acyclic(),
{
    assert forall|id: WindowId| #[trigger] r.windows.contains_key(id) implies resolvable(
        r.windows,
        r.windows[id],
    ) by {
        lemma_ordered_settles(r, id);
    }
}

/// Among fewer records a chain of parents ends no later.
proof fn lemma_remove_settles(windows: Windows, id: WindowId, w: Window, n: nat)
    requires
        settles_within(windows, w, n),
    ensures
        settles_within(windows.remove(id), w, n),
    decreases n,
{
    if !(w.position is Fixed) && windows.remove(id).contains_key(w.parent) {
        lemma_remove_settles(windows, id, windows[w.parent], (n - 1) as nat);
    }
}

/// Removing a window from an acyclic registry leaves it acyclic.
pub proof fn lemma_remove_child_acyclic(r: Registry, id: WindowId)
    requires
        r.acyclic(),
    ensures
        r.remove_child(id).acyclic(),
{
    let rest = r.remove_child(id).windows;
    assert forall|other: WindowId| #[trigger] rest.contains_key(other) implies resolvable(
        rest,
        rest[other],
    ) by {
        let n = choose|n: nat| settles_within(r.windows, r.windows[other], n);
        lemma_remove_settles(r.windows, id, r.windows[other], n);
    }
}

} // verus!
