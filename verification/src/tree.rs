use vstd::prelude::*;
use crate::compose::sized;
use crate::layout::{chain_within, same_shape, Windows};
use crate::widget::{lowers, Widget};
use crate::window::{Window, WindowId};

verus! {

/// Whether the tree below `w` is finite: from every widget in it to each of
/// its children, `levels` drops.
pub open spec fn finite<W: Widget>(w: W) -> bool
    decreases w.levels(),
{
    &&& lowers(w)
    &&& forall|i: int| 0 <= i < w.nodes().len() ==> finite(#[trigger] w.nodes()[i])
}

/// Whether some widget of the tree below `w` draws into the window `id`.
pub open spec fn names<W: Widget>(w: W, id: WindowId) -> bool
    decreases w.levels(), 1nat,
{
    w.window() == id || names_from(w, 0, id)
}

/// Whether one of the children of `w`, from the `i`-th on, has a widget
/// below it that draws into the window `id`.
pub open spec fn names_from<W: Widget>(w: W, i: nat, id: WindowId) -> bool
    decreases w.levels(), 0nat,
    when finite(w)
{
    exists|k: int| i <= k < w.nodes().len() && names(#[trigger] w.nodes()[k], id)
}

/// A window is drawn into below the children of `w` from the `i`-th on if it
/// is drawn into below the `i`-th, or below those after it.
pub proof fn lemma_names_from_step<W: Widget>(w: W, i: nat, id: WindowId)
    requires
        finite(w),
        i < w.nodes().len(),
    ensures
        names_from(w, i, id) <==> names(w.nodes()[i as int], id) || names_from(w, i + 1, id),
{
}

/// Whether every window is drawn into by at most one widget of the tree
/// below `w`.
pub open spec fn distinct<W: Widget>(w: W) -> bool
    decreases w.levels(),
    when finite(w)
{
    &&& forall|i: int| 0 <= i < w.nodes().len() ==> !names(#[trigger] w.nodes()[i], w.window())
    &&& forall|i: int, j: int, id: WindowId|
        0 <= i < j < w.nodes().len() ==> !(#[trigger] names(w.nodes()[i], id) && #[trigger] names(
            w.nodes()[j],
            id,
        ))
    &&& forall|i: int| 0 <= i < w.nodes().len() ==> distinct(#[trigger] w.nodes()[i])
}

/// Whether every widget of the tree below `w` draws into a window that has a
/// record.
pub open spec fn on_file<W: Widget>(w: W, windows: Windows) -> bool
    decreases w.levels(),
    when finite(w)
{
    &&& windows.contains_key(w.window())
    &&& forall|i: int| 0 <= i < w.nodes().len() ==> on_file(#[trigger] w.nodes()[i], windows)
}

/// `on_file`, for the children of `w` from the `i`-th on.
pub open spec fn on_file_from<W: Widget>(w: W, i: nat, windows: Windows) -> bool {
    forall|k: int| i <= k < w.nodes().len() ==> on_file(#[trigger] w.nodes()[k], windows)
}

/// Whether no widget of the tree below `w` ever fails to draw.
pub open spec fn always_draws<W: Widget>(w: W) -> bool
    decreases w.levels(),
    when finite(w)
{
    &&& forall|record: Window| (#[trigger] w.drawn(record)) is Ok
    &&& forall|i: int| 0 <= i < w.nodes().len() ==> always_draws(#[trigger] w.nodes()[i])
}

/// Whether, for every widget of the tree below `w`, the record that `after`
/// holds for its window is the one that `before` holds, with the size of what
/// the widget draws for that record.
pub open spec fn sizes_taken<W: Widget>(w: W, before: Windows, after: Windows) -> bool
    decreases w.levels(),
    when finite(w)
{
    &&& w.drawn(before[w.window()]) matches Ok(surface) && after[w.window()] == sized(
        before[w.window()],
        surface,
    )
    &&& forall|i: int|
        0 <= i < w.nodes().len() ==> sizes_taken(#[trigger] w.nodes()[i], before, after)
}

/// Whether `child` draws into a window on file that names `parent` as its
/// parent.
pub open spec fn hangs_below(windows: Windows, child: WindowId, parent: WindowId) -> bool {
    windows.contains_key(child) && windows[child].parent == parent
}

/// Whether the tree below `w` has the shape of the windows it draws into: the
/// window of each widget below `w` is on file, and names the window of the
/// widget above it as its parent.
pub open spec fn mirrors<W: Widget>(w: W, windows: Windows) -> bool
    decreases w.levels(),
    when finite(w)
{
    &&& forall|i: int|
        0 <= i < w.nodes().len() ==> hangs_below(windows, (#[trigger] w.nodes()[i]).window(), w.window())
    &&& forall|i: int| 0 <= i < w.nodes().len() ==> mirrors(#[trigger] w.nodes()[i], windows)
}

/// Whether two records differ in nothing but their size.
pub open spec fn same_but_size(a: Window, b: Window) -> bool {
    a == (Window { size: a.size, ..b })
}

/// Whether what the widgets of the tree below `w` draw does not depend on the
/// size that their window has on record.
pub open spec fn size_blind<W: Widget>(w: W) -> bool
    decreases w.levels(),
    when finite(w)
{
    &&& forall|a: Window, b: Window| same_but_size(a, b) ==> #[trigger] w.drawn(a) == #[trigger] w.drawn(b)
    &&& forall|i: int| 0 <= i < w.nodes().len() ==> size_blind(#[trigger] w.nodes()[i])
}

/// Whether the chain of parents that decides the position of the window of
/// `w` stays outside the tree below `w`: no widget of the tree draws into a
/// window on it.
pub open spec fn anchored<W: Widget>(w: W, windows: Windows) -> bool {
    chain_within(windows, windows[w.window()], Set::new(|id: WindowId| !names(w, id)))
}

/// `sizes_taken`, for the children of `w` from the `i`-th on.
pub open spec fn sizes_taken_from<W: Widget>(w: W, i: nat, before: Windows, after: Windows) -> bool {
    forall|k: int| i <= k < w.nodes().len() ==> sizes_taken(#[trigger] w.nodes()[k], before, after)
}

/// Which windows have a record decides whether a tree is on file.
pub proof fn lemma_on_file_same_windows<W: Widget>(w: W, a: Windows, b: Windows)
    requires
        finite(w),
        a.dom() == b.dom(),
    ensures
        on_file(w, a) == on_file(w, b),
    decreases w.levels(),
{
    assert forall|i: int| 0 <= i < w.nodes().len() implies on_file(#[trigger] w.nodes()[i], a)
        == on_file(w.nodes()[i], b) by {
        lemma_on_file_same_windows(w.nodes()[i], a, b);
    }
}

/// Whether sizes were taken below `w` depends on the records of the windows
/// that the tree draws into, and on no other.
pub proof fn lemma_sizes_taken_elsewhere<W: Widget>(
    w: W,
    before: Windows,
    after: Windows,
    before2: Windows,
    after2: Windows,
)
    requires
        finite(w),
        sizes_taken(w, before, after),
        forall|id: WindowId| #[trigger] names(w, id) ==> before[id] == before2[id] && after[id] == after2[id],
    ensures
        sizes_taken(w, before2, after2),
    decreases w.levels(),
{
    assert(names(w, w.window()));
    assert forall|i: int| 0 <= i < w.nodes().len() implies sizes_taken(
        #[trigger] w.nodes()[i],
        before2,
        after2,
    ) by {
        let child = w.nodes()[i];
        assert forall|id: WindowId| #[trigger] names(child, id) implies before[id] == before2[id]
            && after[id] == after2[id] by {
            assert(names(w, id));
        }
        lemma_sizes_taken_elsewhere(child, before, after, before2, after2);
    }
}

/// Whether a tree has the shape of its windows does not depend on the sizes
/// on record.
pub proof fn lemma_mirrors_same_shape<W: Widget>(w: W, a: Windows, b: Windows)
    requires
        finite(w),
        mirrors(w, a),
        same_shape(a, b),
    ensures
        mirrors(w, b),
    decreases w.levels(),
{
    assert forall|i: int| 0 <= i < w.nodes().len() implies hangs_below(
        b,
        (#[trigger] w.nodes()[i]).window(),
        w.window(),
    ) && mirrors(w.nodes()[i], b) by {
        let child = w.nodes()[i];
        lemma_mirrors_same_shape(child, a, b);
    }
}

} // verus!
