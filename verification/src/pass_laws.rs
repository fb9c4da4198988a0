use vstd::prelude::*;
use crate::compose::{compose, compose_from, fits, fits_from, sized, Halt, Pass};
use crate::layout::{
    acyclic, chain_within, lemma_chain_within_wider, lemma_position_agrees, lemma_same_shape_acyclic,
    lemma_same_shape_back, lemma_same_shape_chain, same_shape, Windows,
};
use crate::error::Failure;
use crate::surface::Surface;
use crate::tree::{
    always_draws, anchored, distinct, finite, lemma_mirrors_same_shape, lemma_names_from_step,
    lemma_on_file_same_windows, lemma_sizes_taken_elsewhere, mirrors, names, names_from, on_file,
    on_file_from, size_blind, sizes_taken, sizes_taken_from,
};
use crate::widget::Widget;
use crate::window::WindowId;

verus! {

/// The records as a render pass left them, whether it came to an end or
/// stopped on the way.
pub open spec fn windows_after(done: Result<Pass, Halt>) -> Windows {
    match done {
        Ok(pass) => pass.windows,
        Err(halt) => halt.windows,
    }
}

/// Placing a drawing changes no record but that of the window drawn into, and
/// of that one only the size.
pub proof fn lemma_place_frame(st: Pass, id: WindowId, drawn: Result<Surface, Seq<char>>)
    ensures
        same_shape(st.windows, windows_after(st.place(id, drawn))),
        forall|other: WindowId|
            other != id ==> #[trigger] windows_after(st.place(id, drawn))[other] == st.windows[other],
{
    let after = windows_after(st.place(id, drawn));
    assert(after.dom() =~= st.windows.dom());
}

/// A render pass over the tree below `w` leaves the shape of the records as
/// it is, and changes no record of a window that no widget of the tree draws
/// into.
pub proof fn lemma_compose_frame<W: Widget>(w: W, st: Pass)
    requires
        finite(w),
    ensures
        same_shape(st.windows, windows_after(compose(w, st))),
        forall|id: WindowId|
            !#[trigger] names(w, id) ==> windows_after(compose(w, st))[id] == st.windows[id],
    decreases w.levels(), w.nodes().len() + 1,
{
    lemma_place_frame(st, w.window(), w.drawn(st.windows[w.window()]));
    match st.visit(w) {
        Err(halt) => {},
        Ok(next) => {
            lemma_compose_from_frame(w, 0, next);
            let after = windows_after(compose_from(w, 0, next));
            lemma_same_shape_chain(st.windows, next.windows, after);
            assert forall|id: WindowId| !#[trigger] names(w, id) implies after[id]
                == st.windows[id] by {
                assert(!names_from(w, 0, id));
            }
        },
    }
}

/// `lemma_compose_frame`, for the children of `w` from the `i`-th on.
pub proof fn lemma_compose_from_frame<W: Widget>(w: W, i: nat, st: Pass)
    requires
        finite(w),
    ensures
        same_shape(st.windows, windows_after(compose_from(w, i, st))),
        forall|id: WindowId|
            !#[trigger] names_from(w, i, id) ==> windows_after(compose_from(w, i, st))[id]
                == st.windows[id],
    decreases w.levels(), w.nodes().len() - i,
{
    if i < w.nodes().len() {
        let child = w.nodes()[i as int];
        lemma_compose_frame(child, st);
        match compose(child, st) {
            Err(halt) => {
                assert forall|id: WindowId| !#[trigger] names_from(w, i, id) implies halt.windows[id]
                    == st.windows[id] by {
                    lemma_names_from_step(w, i, id);
                }
            },
            Ok(next) => {
                lemma_compose_from_frame(w, i + 1, next);
                let after = windows_after(compose_from(w, i + 1, next));
                lemma_same_shape_chain(st.windows, next.windows, after);
                assert forall|id: WindowId| !#[trigger] names_from(w, i, id) implies after[id]
                    == st.windows[id] by {
                    lemma_names_from_step(w, i, id);
                }
            },
        }
    }
}

/// Whether `failure` is one that a render pass over the tree below `w` can
/// stop with, among the given records: `WindowNotFound` for a window that a
/// widget of the tree draws into and that has no record, or `RenderError` for
/// one that has a record, and that only where a widget can fail to draw.
pub open spec fn stops_pass<W: Widget>(w: W, windows: Windows, failure: Failure) -> bool {
    match failure {
        Failure::WindowNotFound(id) => names(w, id) && !windows.contains_key(id),
        Failure::RenderError(id, _) => names(w, id) && windows.contains_key(id) && !always_draws(w),
        Failure::DeviceError => false,
    }
}

/// `stops_pass`, for the children of `w` from the `i`-th on.
pub open spec fn stops_pass_from<W: Widget>(w: W, i: nat, windows: Windows, failure: Failure) -> bool {
    match failure {
        Failure::WindowNotFound(id) => names_from(w, i, id) && !windows.contains_key(id),
        Failure::RenderError(id, _) => names_from(w, i, id) && windows.contains_key(id)
            && !always_draws(w),
        Failure::DeviceError => false,
    }
}

/// A render pass comes to an end only if every widget of the tree has a
/// window on file. Where one has none, the pass stops, and no frame is left to
/// hand to the device; it stops with `WindowNotFound` for a window that the
/// tree draws into and that has no record, unless a widget has failed to draw
/// before.
pub proof fn law_missing_window_stops_pass<W: Widget>(w: W, st: Pass)
    requires
        finite(w),
    ensures
        match compose(w, st) {
            Ok(_) => on_file(w, st.windows),
            Err(halt) => stops_pass(w, st.windows, halt.failure),
        },
    decreases w.levels(), w.nodes().len() + 1,
{
    match st.visit(w) {
        Err(halt) => {},
        Ok(next) => {
            lemma_place_frame(st, w.window(), w.drawn(st.windows[w.window()]));
            lemma_missing_window_from(w, 0, next);
            assert forall|k: int| 0 <= k < w.nodes().len() implies on_file(
                #[trigger] w.nodes()[k],
                st.windows,
            ) == on_file(w.nodes()[k], next.windows) by {
                lemma_on_file_same_windows(w.nodes()[k], st.windows, next.windows);
            }
        },
    }
}

/// `law_missing_window_stops_pass`, for the children of `w` from the `i`-th on.
proof fn lemma_missing_window_from<W: Widget>(w: W, i: nat, st: Pass)
    requires
        finite(w),
    ensures
        match compose_from(w, i, st) {
            Ok(_) => on_file_from(w, i, st.windows),
            Err(halt) => stops_pass_from(w, i, st.windows, halt.failure),
        },
    decreases w.levels(), w.nodes().len() - i,
{
    if i < w.nodes().len() {
        let child = w.nodes()[i as int];
        law_missing_window_stops_pass(child, st);
        match compose(child, st) {
            Err(halt) => {
                lemma_stops_pass_step(w, i, halt.failure);
            },
            Ok(next) => {
                lemma_compose_frame(child, st);
                lemma_missing_window_from(w, i + 1, next);
                assert forall|k: int| i + 1 <= k < w.nodes().len() implies on_file(
                    #[trigger] w.nodes()[k],
                    st.windows,
                ) == on_file(w.nodes()[k], next.windows) by {
                    lemma_on_file_same_windows(w.nodes()[k], st.windows, next.windows);
                }
                match compose_from(w, i + 1, next) {
                    Ok(_) => {
                        assert forall|k: int| i <= k < w.nodes().len() implies on_file(
                            #[trigger] w.nodes()[k],
                            st.windows,
                        ) by {}
                    },
                    Err(halt) => {
                        lemma_stops_pass_step(w, i, halt.failure);
                    },
                }
            },
        }
    }
}

/// The window that a failure below the children of `w` speaks of is drawn
/// into below `w`.
proof fn lemma_stops_pass_step<W: Widget>(w: W, i: nat, failure: Failure)
    requires
        finite(w),
        i < w.nodes().len(),
    ensures
        forall|id: WindowId|
            #[trigger] names(w.nodes()[i as int], id) || names_from(w, i + 1, id) ==> names_from(w, i, id),
        !always_draws(w.nodes()[i as int]) ==> !always_draws(w),
{
    assert forall|id: WindowId|
        #[trigger] names(w.nodes()[i as int], id) || names_from(w, i + 1, id) implies names_from(
        w,
        i,
        id,
    ) by {
        lemma_names_from_step(w, i, id);
    }
}

/// Where every widget draws, a render pass over a tree in which a widget has
/// no window on file stops with `WindowNotFound`, for a window that the tree
/// draws into and that has no record.
pub proof fn law_window_not_found<W: Widget>(w: W, st: Pass)
    requires
        finite(w),
        always_draws(w),
        !on_file(w, st.windows),
    ensures
        compose(w, st) matches Err(halt) && halt.failure matches Failure::WindowNotFound(id) && names(
            w,
            id,
        ) && !st.windows.contains_key(id),
{
    law_missing_window_stops_pass(w, st);
}

/// In a tree where no two widgets draw into the same window, a window that a
/// child of `w` draws into is drawn into by no later child, nor by `w`.
proof fn lemma_distinct_children<W: Widget>(w: W, i: nat, id: WindowId)
    requires
        finite(w),
        distinct(w),
        i < w.nodes().len(),
        names(w.nodes()[i as int], id),
    ensures
        id != w.window(),
        !names_from(w, i + 1, id),
        forall|k: int| 0 <= k < w.nodes().len() && k != i ==> !names(#[trigger] w.nodes()[k], id),
{
    assert forall|k: int| 0 <= k < w.nodes().len() && k != i implies !names(
        #[trigger] w.nodes()[k],
        id,
    ) by {}
}

/// When a render pass over a tree in which no two widgets draw into the same
/// window comes to an end, the record of each window that a widget of the
/// tree draws into has the size of what that widget drew, and is otherwise as
/// it was.
pub proof fn law_sizes_recorded<W: Widget>(w: W, st: Pass)
    requires
        finite(w),
        distinct(w),
        compose(w, st) is Ok,
    ensures
        sizes_taken(w, st.windows, compose(w, st)->Ok_0.windows),
    decreases w.levels(), w.nodes().len() + 1,
{
    let id = w.window();
    let next = st.visit(w)->Ok_0;
    let end = compose_from(w, 0, next)->Ok_0;
    lemma_place_frame(st, id, w.drawn(st.windows[id]));
    lemma_sizes_from(w, 0, next);
    lemma_compose_from_frame(w, 0, next);
    assert(!names_from(w, 0, id)) by {
        if names_from(w, 0, id) {
            let k = choose|k: int| 0 <= k < w.nodes().len() && names(#[trigger] w.nodes()[k], id);
            lemma_distinct_children(w, k as nat, id);
        }
    }
    assert forall|k: int| 0 <= k < w.nodes().len() implies sizes_taken(
        #[trigger] w.nodes()[k],
        st.windows,
        end.windows,
    ) by {
        let child = w.nodes()[k];
        assert forall|other: WindowId| #[trigger] names(child, other) implies next.windows[other]
            == st.windows[other] by {
            lemma_distinct_children(w, k as nat, other);
        }
        lemma_sizes_taken_elsewhere(child, next.windows, end.windows, st.windows, end.windows);
    }
}

/// `law_sizes_recorded`, for the children of `w` from the `i`-th on.
proof fn lemma_sizes_from<W: Widget>(w: W, i: nat, st: Pass)
    requires
        finite(w),
        distinct(w),
        compose_from(w, i, st) is Ok,
    ensures
        sizes_taken_from(w, i, st.windows, compose_from(w, i, st)->Ok_0.windows),
    decreases w.levels(), w.nodes().len() - i,
{
    if i < w.nodes().len() {
        let child = w.nodes()[i as int];
        let next = compose(child, st)->Ok_0;
        let end = compose_from(w, i + 1, next)->Ok_0;
        law_sizes_recorded(child, st);
        lemma_sizes_from(w, i + 1, next);
        lemma_compose_frame(child, st);
        lemma_compose_from_frame(w, i + 1, next);
        assert forall|k: int| i <= k < w.nodes().len() implies sizes_taken(
            #[trigger] w.nodes()[k],
            st.windows,
            end.windows,
        ) by {
            if k == i {
                assert forall|id: WindowId| #[trigger] names(child, id) implies next.windows[id]
                    == end.windows[id] by {
                    lemma_distinct_children(w, i, id);
                }
                lemma_sizes_taken_elsewhere(child, st.windows, next.windows, st.windows, end.windows);
            } else {
                assert forall|id: WindowId| #[trigger] names(w.nodes()[k], id) implies next.windows[id]
                    == st.windows[id] by {
                    lemma_distinct_children(w, k as nat, id);
                }
                lemma_sizes_taken_elsewhere(
                    w.nodes()[k],
                    next.windows,
                    end.windows,
                    st.windows,
                    end.windows,
                );
            }
        }
    }
}

/// The second of two passes, seen from the first. The first pass has come to
/// `w` with the state `first`; the second comes to `w` with the same frame and
/// with the records `last`, which for the windows of the tree are the ones
/// that the first pass ends with, and for the windows of `settled` the ones
/// that the first pass has now. Then the second pass changes no record, and
/// composes the frame that the first composes.
proof fn lemma_replay<W: Widget>(w: W, first: Pass, last: Windows, settled: Set<WindowId>)
    requires
        finite(w),
        distinct(w),
        size_blind(w),
        mirrors(w, first.windows),
        acyclic(first.windows),
        compose(w, first) is Ok,
        same_shape(first.windows, last),
        forall|id: WindowId| #[trigger] names(w, id) ==> last[id] == compose(w, first)->Ok_0.windows[id],
        forall|id: WindowId| #[trigger] settled.contains(id) ==> first.windows[id] == last[id] && !names(w, id),
        chain_within(first.windows, first.windows[w.window()], settled),
    ensures
        compose(w, Pass { windows: last, frame: first.frame }) == Ok::<Pass, Halt>(
            Pass { windows: last, frame: compose(w, first)->Ok_0.frame },
        ),
        fits(w, Pass { windows: last, frame: first.frame }) == fits(w, first),
    decreases w.levels(), w.nodes().len() + 1,
{
    let id = w.window();
    let record = first.windows[id];
    let surface = w.drawn(record)->Ok_0;
    let next = first.visit(w)->Ok_0;
    let end = compose_from(w, 0, next)->Ok_0;
    let second = Pass { windows: last, frame: first.frame };
    lemma_place_frame(first, id, w.drawn(record));
    lemma_compose_from_frame(w, 0, next);
    assert(names(w, id));
    assert(!names_from(w, 0, id)) by {
        if names_from(w, 0, id) {
            let k = choose|k: int| 0 <= k < w.nodes().len() && names(#[trigger] w.nodes()[k], id);
            lemma_distinct_children(w, k as nat, id);
        }
    }
    // The second pass finds the record that the first one left, and draws the same.
    assert(last[id] == next.windows[id]);
    assert(w.drawn(last[id]) == w.drawn(record));
    assert(last.insert(id, sized(last[id], surface)) =~= last);
    // It places the drawing where the first pass placed it.
    lemma_chain_within_wider(first.windows, next.windows, record, next.windows[id], settled, settled);
    assert forall|k: WindowId| #[trigger] settled.contains(k) implies next.windows[k] == last[k] by {}
    lemma_position_agrees(next.windows, last, next.windows[id], last[id], settled);
    assert(second.visit(w) == Ok::<Pass, Halt>(Pass { windows: last, frame: next.frame }));
    // Below `w`, the window of `w` is settled too.
    let wider = settled.insert(id);
    lemma_chain_within_wider(first.windows, next.windows, record, next.windows[id], settled, wider);
    lemma_mirrors_same_shape(w, first.windows, next.windows);
    lemma_same_shape_acyclic(first.windows, next.windows);
    lemma_same_shape_back(first.windows, next.windows);
    lemma_same_shape_chain(next.windows, first.windows, last);
    assert forall|other: WindowId| #[trigger] names_from(w, 0, other) implies last[other]
        == end.windows[other] by {
        assert(names(w, other));
    }
    lemma_replay_from(w, 0, next, last, wider);
}

/// `lemma_replay`, for the children of `w` from the `i`-th on.
proof fn lemma_replay_from<W: Widget>(w: W, i: nat, first: Pass, last: Windows, settled: Set<WindowId>)
    requires
        finite(w),
        distinct(w),
        size_blind(w),
        mirrors(w, first.windows),
        acyclic(first.windows),
        compose_from(w, i, first) is Ok,
        same_shape(first.windows, last),
        forall|id: WindowId| #[trigger]
            names_from(w, i, id) ==> last[id] == compose_from(w, i, first)->Ok_0.windows[id],
        forall|id: WindowId| #[trigger]
            settled.contains(id) ==> first.windows[id] == last[id] && !names_from(w, i, id),
        settled.contains(w.window()),
        first.windows.contains_key(w.window()),
        chain_within(first.windows, first.windows[w.window()], settled),
    ensures
        compose_from(w, i, Pass { windows: last, frame: first.frame }) == Ok::<Pass, Halt>(
            Pass { windows: last, frame: compose_from(w, i, first)->Ok_0.frame },
        ),
        fits_from(w, i, Pass { windows: last, frame: first.frame }) == fits_from(w, i, first),
    decreases w.levels(), w.nodes().len() - i,
{
    if i < w.nodes().len() {
        let child = w.nodes()[i as int];
        let next = compose(child, first)->Ok_0;
        let end = compose_from(w, i + 1, next)->Ok_0;
        lemma_compose_frame(child, first);
        lemma_compose_from_frame(w, i + 1, next);
        assert forall|id: WindowId| #[trigger] names(child, id) implies last[id] == next.windows[id] by {
            lemma_names_from_step(w, i, id);
            lemma_distinct_children(w, i, id);
        }
        assert forall|id: WindowId| #[trigger] settled.contains(id) implies first.windows[id] == last[id]
            && !names(child, id) by {
            lemma_names_from_step(w, i, id);
        }
        // The chain of the child goes through the window of `w`.
        assert(chain_within(first.windows, first.windows[child.window()], settled));
        lemma_replay(child, first, last, settled);
        // The rest of the children.
        lemma_mirrors_same_shape(w, first.windows, next.windows);
        lemma_same_shape_acyclic(first.windows, next.windows);
        lemma_same_shape_back(first.windows, next.windows);
        lemma_same_shape_chain(next.windows, first.windows, last);
        assert forall|id: WindowId| #[trigger] names_from(w, i + 1, id) implies last[id]
            == end.windows[id] by {
            lemma_names_from_step(w, i, id);
        }
        assert forall|id: WindowId| #[trigger] settled.contains(id) implies next.windows[id] == last[id]
            && !names_from(w, i + 1, id) by {
            lemma_names_from_step(w, i, id);
        }
        lemma_chain_within_wider(
            first.windows,
            next.windows,
            first.windows[w.window()],
            next.windows[w.window()],
            settled,
            settled,
        );
        lemma_replay_from(w, i + 1, next, last, settled);
    }
}

/// Two render passes in a row, over a tree that has the shape of its windows
/// and whose widgets draw the same whatever size is on record: the second
/// pass changes no record and composes the very frame that the first
/// composed. It stays within what the machine can count if the first did.
pub proof fn law_render_twice<W: Widget>(root: W, windows: Windows)
    requires
        finite(root),
        distinct(root),
        size_blind(root),
        mirrors(root, windows),
        anchored(root, windows),
        acyclic(windows),
        compose(root, Pass::start(windows)) is Ok,
    ensures
        compose(root, Pass::start(compose(root, Pass::start(windows))->Ok_0.windows)) == compose(
            root,
            Pass::start(windows),
        ),
        fits(root, Pass::start(compose(root, Pass::start(windows))->Ok_0.windows)) == fits(
            root,
            Pass::start(windows),
        ),
{
    let first = Pass::start(windows);
    let end = compose(root, first)->Ok_0;
    let settled = Set::new(|id: WindowId| !names(root, id));
    lemma_compose_frame(root, first);
    lemma_replay(root, first, end.windows, settled);
}

} // verus!
