use std::collections::BTreeMap;
use vstd::prelude::*;
use vstd::std_specs::btree::increasing_seq;
use vstd::std_specs::cmp::OrdSpec;
use vstd::std_specs::iter::IteratorSpec;
use crate::compose::{
    compose, compose_from, fits, fits_from, left_by, left_by_from, outcome, sized, Pass,
};
use crate::error::Error;
use crate::layout::{
    lemma_rank_bound, lemma_rank_of_parent, lemma_rank_step, lemma_resolvable_below,
    lemma_same_shape_acyclic, lemma_same_shape_resolvable, rank, resolvable, same_shape, settles_within,
};
use crate::surface::Bitmap;
use crate::widget::{lowers, Widget};
use crate::registry::{lemma_remove_child_acyclic, root_id, Registry};
use crate::window::{Position, Window, WindowId};

verus! {

/// The window registry of one display.
///
/// Windows are created below a parent and removed one by one. Removing a
/// window removes its record and no other: the windows below it stay on file
/// as orphans, and are placed as windows without a parent from then on. The
/// root id has no record of its own; it is the parent of the windows at the
/// top.
///
/// The registry is well formed (`Registry::wf`) as long as no caller writes
/// another id into a record. It is acyclic (`Registry::acyclic`) as long as
/// each window is created below the root id or below a window that was
/// created before it. `is_well_formed` and `is_acyclic` test both.
pub struct DisplayManager {
    windows: BTreeMap<WindowId, Window>,
    nextid: u32,
}

impl View for DisplayManager {
    type V = Registry;

    closed spec fn view(&self) -> Registry {
        Registry { windows: self.windows@, next: self.nextid }
    }
}

/// `BTreeMap::get_mut`: a mutable reference to the value filed under `id`, if
/// there is one. The map changes only in what the caller writes through it.
#[verifier::external_body]
fn record_mut(windows: &mut BTreeMap<WindowId, Window>, id: WindowId) -> (record: Option<&mut Window>)
    ensures
        match record {
            Some(w) => old(windows)@.contains_key(id) && *w == old(windows)@[id] && final(windows)@
                == old(windows)@.insert(id, *final(w)),
            None => !old(windows)@.contains_key(id) && final(windows)@ == old(windows)@,
        },
{
    windows.get_mut(&id)
}

/// The entries of a map that is walked in the order of its keys come with
/// strictly rising ids.
proof fn lemma_entries_rise(entries: Seq<(&WindowId, &Window)>)
    requires
        increasing_seq(entries.map_values(|kv: (&WindowId, &Window)| *kv.0)),
    ensures
        forall|i: int, j: int|
            0 <= i < j < entries.len() ==> *(#[trigger] entries[i]).0 < *(#[trigger] entries[j]).0,
{
    let keys = entries.map_values(|kv: (&WindowId, &Window)| *kv.0);
    assert forall|i: int, j: int| 0 <= i < j < entries.len() implies *(#[trigger] entries[i]).0 < *(
    #[trigger] entries[j]).0 by {
        assert(keys[i].cmp_spec(&keys[j]) == core::cmp::Ordering::Less);
    }
}

/// Whether one of the first `upto` entries is the window `child`, and names
/// `id` as its parent.
spec fn found_among(entries: Seq<(&WindowId, &Window)>, upto: int, id: WindowId, child: WindowId) -> bool {
    exists|j: int| 0 <= j < upto && *(#[trigger] entries[j]).0 == child && entries[j].1.parent == id
}

impl DisplayManager {
    /// A registry with no window in it. The first window will get the id 1.
    pub fn new() -> (manager: DisplayManager)
        ensures
            manager@ == Registry::empty(),
            manager@.wf(),
    {
        DisplayManager { windows: BTreeMap::new(), nextid: 1 }
    }

    /// The id that stands for "no parent".
    pub fn root(&self) -> (id: WindowId)
        ensures
            id == root_id(),
    {
        0
    }

    /// The id that the next new window gets.
    pub fn next_id(&self) -> (id: WindowId)
        ensures
            id == self@.next,
    {
        self.nextid
    }

    /// Creates a window below `parent` and returns its id. The parent need not
    /// be on file. The new window has no size and no focus.
    pub fn add_child(&mut self, parent: WindowId, pos: Position) -> (id: WindowId)
        requires
            old(self)@.next < u32::MAX,
        ensures
            id == old(self)@.next,
            final(self)@ == old(self)@.add_child(parent, pos),
            old(self)@.wf() ==> final(self)@.wf() && id != root_id(),
            old(self)@.wf() && old(self)@.ordered() && parent < id ==> final(self)@.ordered(),
    {
        let id = self.nextid;
        self.nextid += 1;
        self.windows.insert(
            id,
            Window { position: pos, id: id, size: (0, 0), z: 0, focus: false, parent: parent },
        );
        id
    }

    /// Removes the record of `id`, if there is one, and no other.
    pub fn remove_child(&mut self, id: WindowId)
        ensures
            final(self)@ == old(self)@.remove_child(id),
            old(self)@.wf() ==> final(self)@.wf(),
            old(self)@.ordered() ==> final(self)@.ordered(),
            old(self)@.acyclic() ==> final(self)@.acyclic(),
    {
        proof {
            if self@.acyclic() {
                lemma_remove_child_acyclic(self@, id);
            }
        }
        self.windows.remove(&id);
    }

    /// The record of `id`, if there is one.
    pub fn get(&self, id: WindowId) -> (record: Option<&Window>)
        ensures
            match record {
                Some(w) => self@.get(id) == Some(*w),
                None => self@.get(id).is_none(),
            },
    {
        self.windows.get(&id)
    }

    /// A mutable reference to the record of `id`. What the caller writes through
    /// it is what the registry then holds for `id`.
    pub fn get_mut(&mut self, id: WindowId) -> (record: Option<&mut Window>)
        ensures
            match record {
                Some(w) => old(self)@.get(id) == Some(*w) && final(self)@ == old(self)@.with_record(
                    id,
                    *final(w),
                ),
                None => old(self)@.get(id).is_none() && final(self)@ == old(self)@,
            },
    {
        record_mut(&mut self.windows, id)
    }

    /// The ids of the windows that name `id` as their parent, in rising order.
    pub fn children(&self, id: WindowId) -> (ids: Vec<WindowId>)
        ensures
            ids@.to_set() == self@.children(id),
            forall|i: int, j: int| 0 <= i < j < ids@.len() ==> ids@[i] < ids@[j],
    {
        let mut ids: Vec<WindowId> = Vec::new();
        let entries = self.windows.iter();
        let ghost m = self.windows@;
        let ghost all = entries.remaining();
        proof {
            lemma_entries_rise(all);
        }
        for entry in it: entries
            invariant
                m == self.windows@,
                it.seq() == all,
                forall|j: int|
                    0 <= j < all.len() ==> m.contains_key(*(#[trigger] all[j]).0) && m[*all[j].0]
                        == *all[j].1,
                forall|k: WindowId| #[trigger] m.contains_key(k) ==> all.contains((&k, &m[k])),
                forall|i: int, j: int|
                    0 <= i < j < all.len() ==> *(#[trigger] all[i]).0 < *(#[trigger] all[j]).0,
                forall|a: int| 0 <= a < ids@.len() ==> found_among(all, it.index(), id, #[trigger] ids@[a]),
                forall|j: int|
                    0 <= j < it.index() && (#[trigger] all[j]).1.parent == id ==> ids@.contains(
                        *all[j].0,
                    ),
                forall|a: int, b: int| 0 <= a < b < ids@.len() ==> ids@[a] < ids@[b],
        {
            let (winid, window) = entry;
            let ghost before = ids@;
            let ghost at = it.index();
            if window.parent == id {
                ids.push(*winid);
            }
            proof {
                assert forall|a: int| 0 <= a < ids@.len() implies found_among(
                    all,
                    at + 1,
                    id,
                    #[trigger] ids@[a],
                ) by {
                    if a < before.len() {
                        let j = choose|j: int|
                            0 <= j < at && *(#[trigger] all[j]).0 == before[a] && all[j].1.parent == id;
                        assert(*all[j].0 == ids@[a] && all[j].1.parent == id);
                    } else {
                        assert(*all[at].0 == ids@[a] && all[at].1.parent == id);
                    }
                }
                assert forall|j: int|
                    0 <= j < at + 1 && (#[trigger] all[j]).1.parent == id implies ids@.contains(
                    *all[j].0,
                ) by {
                    if j < at {
                        let a = choose|a: int| 0 <= a < before.len() && before[a] == *all[j].0;
                        assert(ids@[a] == *all[j].0);
                    } else {
                        assert(ids@.last() == *all[j].0);
                    }
                }
                assert forall|a: int, b: int| 0 <= a < b < ids@.len() implies ids@[a] < ids@[b] by {
                    if b == before.len() {
                        let j = choose|j: int|
                            0 <= j < at && *(#[trigger] all[j]).0 == before[a] && all[j].1.parent == id;
                        assert(*all[j].0 < *all[at].0);
                    }
                }
            }
        }
        proof {
            assert forall|k: WindowId| self@.children(id).contains(k) implies ids@.contains(k) by {
                let j = choose|j: int| 0 <= j < all.len() && all[j] == (&k, &m[k]);
                assert(all[j].1.parent == id);
            }
            assert forall|k: WindowId| ids@.contains(k) implies self@.children(id).contains(k) by {
                let a = choose|a: int| 0 <= a < ids@.len() && ids@[a] == k;
                let j = choose|j: int|
                    0 <= j < all.len() && *(#[trigger] all[j]).0 == ids@[a] && all[j].1.parent == id;
                assert(m.contains_key(*all[j].0));
            }
            assert(ids@.to_set() =~= self@.children(id));
        }
        ids
    }

    /// Whether each record is filed under its own id, and every id on file was
    /// handed out before.
    pub fn is_well_formed(&self) -> (well_formed: bool)
        ensures
            well_formed == self@.wf(),
    {
        if self.nextid < 1 {
            return false;
        }
        let entries = self.windows.iter();
        let ghost m = self.windows@;
        let ghost all = entries.remaining();
        for entry in it: entries
            invariant
                m == self.windows@,
                self.nextid >= 1,
                it.seq() == all,
                forall|j: int|
                    0 <= j < all.len() ==> m.contains_key(*(#[trigger] all[j]).0) && m[*all[j].0]
                        == *all[j].1,
                forall|k: WindowId| #[trigger] m.contains_key(k) ==> all.contains((&k, &m[k])),
                forall|j: int|
                    0 <= j < it.index() ==> 1 <= *(#[trigger] all[j]).0 < self.nextid && all[j].1.id
                        == *all[j].0,
        {
            let (winid, window) = entry;
            if *winid < 1 || *winid >= self.nextid || window.id != *winid {
                return false;
            }
        }
        proof {
            assert forall|id: WindowId| #[trigger] m.contains_key(id) implies 1 <= id < self.nextid
                && m[id].id == id by {
                let j = choose|j: int| 0 <= j < all.len() && all[j] == (&id, &m[id]);
                assert(*all[j].0 == id);
            }
        }
        true
    }

    /// Whether the position of `window` can be worked out: the chain of parents
    /// that decides it comes to an end.
    pub fn has_position(&self, window: &Window) -> (found: bool)
        ensures
            found == resolvable(self@.windows, *window),
    {
        let ghost m = self.windows@;
        let limit = self.windows.len();
        let mut at = window;
        let mut steps: usize = 0;
        loop
            invariant
                m == self.windows@,
                m.dom().finite(),
                limit == m.dom().len(),
                steps <= limit,
                resolvable(m, *at) ==> resolvable(m, *window),
                resolvable(m, *window) ==> resolvable(m, *at) && rank(m, *window) == rank(m, *at) + steps,
            decreases limit - steps,
        {
            let settled = match at.position {
                Position::Fixed(_, _) => None,
                _ => self.windows.get(&at.parent),
            };
            match settled {
                None => {
                    assert(settles_within(m, *at, 0));
                    return true;
                },
                Some(parent) => {
                    proof {
                        if resolvable(m, *parent) {
                            lemma_resolvable_below(m, *at);
                        }
                        if resolvable(m, *at) {
                            lemma_rank_step(m, *at);
                        }
                        if resolvable(m, *window) {
                            lemma_rank_bound(m, *window);
                        }
                    }
                    if steps == limit {
                        return false;
                    }
                    steps += 1;
                    at = parent;
                },
            }
        }
    }

    /// Whether every window on file has a position: no cycle of parents decides
    /// one.
    pub fn is_acyclic(&self) -> (acyclic: bool)
        ensures
            acyclic == self@.acyclic(),
    {
        let entries = self.windows.iter();
        let ghost m = self.windows@;
        let ghost all = entries.remaining();
        for entry in it: entries
            invariant
                m == self.windows@,
                it.seq() == all,
                forall|j: int|
                    0 <= j < all.len() ==> m.contains_key(*(#[trigger] all[j]).0) && m[*all[j].0]
                        == *all[j].1,
                forall|k: WindowId| #[trigger] m.contains_key(k) ==> all.contains((&k, &m[k])),
                forall|j: int| 0 <= j < it.index() ==> resolvable(m, *(#[trigger] all[j]).1),
        {
            let (_, window) = entry;
            if !self.has_position(window) {
                return false;
            }
        }
        proof {
            assert forall|id: WindowId| #[trigger] m.contains_key(id) implies resolvable(m, m[id]) by {
                let j = choose|j: int| 0 <= j < all.len() && all[j] == (&id, &m[id]);
                assert(*all[j].1 == m[id]);
            }
        }
        true
    }

    /// The record of the parent of `window`, if the parent is on file.
    pub fn parent_window(&self, window: &Window) -> (parent: Option<&Window>)
        requires
            self@.wf(),
        ensures
            match parent {
                Some(p) => self@.parent_window(*window) == Some(*p) && p.id == window.parent,
                None => self@.parent_window(*window).is_none(),
            },
    {
        self.windows.get(&window.parent)
    }

    /// The absolute position of `window`. A window with a fixed position has
    /// it whatever the registry holds; for any other, the chain of its parents
    /// has to come to an end, at a position that a `usize` can hold.
    pub fn calculate_position(&self, window: &Window) -> (pos: (usize, usize))
        requires
            self@.locates(*window),
        ensures
            resolvable(self@.windows, *window),
            pos.0 == self@.position(*window).0,
            pos.1 == self@.position(*window).1,
        decreases rank(self@.windows, *window),
    {
        proof {
            if window.position is Fixed {
                assert(settles_within(self@.windows, *window, 0));
            }
        }
        match window.position {
            Position::Fixed(x, y) => (x, y),
            rule => {
                let origin = match self.parent_window(window) {
                    None => (0, 0),
                    Some(parent) => {
                        proof {
                            lemma_rank_of_parent(self@.windows, *window);
                        }
                        let at = self.calculate_position(parent);
                        (at.0, at.1 + parent.size.1)
                    },
                };
                match rule {
                    Position::Relative(dx, dy) => (origin.0 + dx, origin.1 + dy),
                    _ => origin,
                }
            },
        }
    }

    /// The absolute position of `window`, unless it lies beyond what a `usize`
    /// can hold.
    pub fn checked_position(&self, window: &Window) -> (pos: Option<(usize, usize)>)
        requires
            window.position is Fixed || (self@.wf() && resolvable(self@.windows, *window)),
        ensures
            resolvable(self@.windows, *window),
            match pos {
                Some(at) => at.0 == self@.position(*window).0 && at.1 == self@.position(*window).1,
                None => !self@.locates(*window),
            },
        decreases rank(self@.windows, *window),
    {
        proof {
            if window.position is Fixed {
                assert(settles_within(self@.windows, *window, 0));
            }
        }
        match window.position {
            Position::Fixed(x, y) => Some((x, y)),
            rule => {
                let origin = match self.parent_window(window) {
                    None => (0, 0),
                    Some(parent) => {
                        proof {
                            lemma_rank_of_parent(self@.windows, *window);
                        }
                        let below = match self.checked_position(parent) {
                            None => None,
                            Some(at) => match at.1.checked_add(parent.size.1) {
                                None => None,
                                Some(y) => Some((at.0, y)),
                            },
                        };
                        match below {
                            None => {
                                return None;
                            },
                            Some(origin) => origin,
                        }
                    },
                };
                match rule {
                    Position::Relative(dx, dy) => match (origin.0.checked_add(dx), origin.1.checked_add(dy)) {
                        (Some(x), Some(y)) => Some((x, y)),
                        _ => None,
                    },
                    _ => Some(origin),
                }
            },
        }
    }

    /// The state of a render pass that has come to these records and to the
    /// frame `frame`.
    pub open spec fn pass(&self, frame: Bitmap) -> Pass {
        Pass { windows: self@.windows, frame: frame@ }
    }

    /// Takes in what the widget of window `id` has drawn: the record of `id`
    /// gets the size of the bitmap, and the bitmap is copied into `base` at the
    /// position of the window. Without a record for `id`, or with a failure in
    /// place of a bitmap, nothing changes.
    pub fn place(&mut self, base: &mut Bitmap, id: WindowId, drawn: Result<Bitmap, String>) -> (done:
        Result<(), Error>)
        requires
            old(self)@.wf(),
            old(self)@.windows.contains_key(id) ==> resolvable(old(self)@.windows, old(self)@.windows[id]),
            old(self).pass(*old(base)).place_fits(id, outcome(drawn)),
        ensures
            final(self)@.next == old(self)@.next,
            final(self)@.wf(),
            same_shape(old(self)@.windows, final(self)@.windows),
            match old(self).pass(*old(base)).place(id, outcome(drawn)) {
                Ok(pass) => done is Ok && final(self).pass(*final(base)) == pass,
                Err(halt) => (done matches Err(e) && e@ == halt.failure) && final(self)@ == old(self)@
                    && final(base)@ == old(base)@,
            },
    {
        let bitmap = match drawn {
            Ok(bitmap) => bitmap,
            Err(message) => {
                return match self.get(id) {
                    None => Err(Error::WindowNotFound(id)),
                    Some(_) => Err(Error::RenderError(id, message)),
                };
            },
        };
        match self.get_mut(id) {
            None => {
                return Err(Error::WindowNotFound(id));
            },
            Some(window) => {
                window.size = (bitmap.width(), bitmap.height());
            },
        }
        proof {
            // Only a size has changed: the chain of parents is as it was.
            let before = old(self)@.windows;
            assert(self@.windows == before.insert(id, sized(before[id], bitmap@)));
            assert(before.dom() =~= self@.windows.dom());
            lemma_same_shape_resolvable(before, self@.windows, before[id], self@.windows[id]);
        }
        match self.get(id) {
            None => Err(Error::WindowNotFound(id)),
            Some(window) => {
                let pos = self.calculate_position(window);
                base.blit(&bitmap, pos);
                Ok(())
            },
        }
    }

    /// `place`, for a drawing of any size at any position: where the drawing
    /// would end beyond what a `usize` can hold, nothing changes and the answer
    /// is `None`.
    pub fn try_place(&mut self, base: &mut Bitmap, id: WindowId, drawn: Result<Bitmap, String>) -> (done:
        Option<Result<(), Error>>)
        requires
            old(self)@.wf(),
            old(self)@.windows.contains_key(id) ==> resolvable(old(self)@.windows, old(self)@.windows[id]),
        ensures
            final(self)@.next == old(self)@.next,
            final(self)@.wf(),
            same_shape(old(self)@.windows, final(self)@.windows),
            done is Some <==> old(self).pass(*old(base)).place_fits(id, outcome(drawn)),
            match done {
                Some(step) => match old(self).pass(*old(base)).place(id, outcome(drawn)) {
                    Ok(pass) => step is Ok && final(self).pass(*final(base)) == pass,
                    Err(halt) => (step matches Err(e) && e@ == halt.failure) && final(self)@ == old(self)@
                        && final(base)@ == old(base)@,
                },
                None => final(self)@ == old(self)@ && final(base)@ == old(base)@,
            },
    {
        let bitmap = match drawn {
            Ok(bitmap) => bitmap,
            Err(message) => {
                return Some(
                    match self.get(id) {
                        None => Err(Error::WindowNotFound(id)),
                        Some(_) => Err(Error::RenderError(id, message)),
                    },
                );
            },
        };
        let size = match self.get_mut(id) {
            None => {
                return Some(Err(Error::WindowNotFound(id)));
            },
            Some(window) => {
                let size = window.size;
                window.size = (bitmap.width(), bitmap.height());
                size
            },
        };
        proof {
            // Only a size has changed: the chain of parents is as it was.
            let before = old(self)@.windows;
            assert(self@.windows == before.insert(id, sized(before[id], bitmap@)));
            assert(before.dom() =~= self@.windows.dom());
            lemma_same_shape_resolvable(before, self@.windows, before[id], self@.windows[id]);
        }
        let at = match self.get(id) {
            None => None,
            Some(window) => match self.checked_position(window) {
                None => None,
                Some(at) => if bitmap.width() == 0 || bitmap.height() == 0 {
                    Some(at)
                } else {
                    match (at.0.checked_add(bitmap.width()), at.1.checked_add(bitmap.height())) {
                        (Some(_), Some(_)) => Some(at),
                        _ => None,
                    }
                },
            },
        };
        match at {
            Some(at) => {
                base.blit(&bitmap, at);
                Some(Ok(()))
            },
            None => {
                match self.get_mut(id) {
                    None => {},
                    Some(window) => {
                        window.size = size;
                    },
                }
                assert(self@.windows =~= old(self)@.windows);
                None
            },
        }
    }

    /// `render_window`, for drawings of any size at any position.
    fn try_render_window<W: Widget>(&mut self, base: &mut Bitmap, widget: &W) -> (done: Option<
        Result<(), Error>,
    >)
        requires
            old(self)@.wf(),
            old(self)@.acyclic(),
        ensures
            final(self)@.next == old(self)@.next,
            final(self)@.wf(),
            same_shape(old(self)@.windows, final(self)@.windows),
            final(self)@.windows == left_by(*widget, old(self).pass(*old(base))),
            done is Some <==> fits(*widget, old(self).pass(*old(base))),
            done matches Some(step) ==> match compose(*widget, old(self).pass(*old(base))) {
                Ok(pass) => step is Ok && final(self).pass(*final(base)) == pass,
                Err(halt) => (step matches Err(e) && e@ == halt.failure) && final(self)@.windows
                    == halt.windows,
            },
        decreases widget.levels(),
    {
        let id = widget.windowid();
        let drawn = match self.get(id) {
            None => {
                return Some(Err(Error::WindowNotFound(id)));
            },
            Some(window) => widget.render(window),
        };
        match self.try_place(base, id, drawn) {
            None => {
                return None;
            },
            Some(Err(e)) => {
                return Some(Err(e));
            },
            Some(Ok(())) => {},
        }
        let kids = widget.children();
        let ghost start = old(self).pass(*old(base));
        let mut i: usize = 0;
        while i < kids.len()
            invariant
                i <= kids@.len(),
                kids@.len() == widget.nodes().len(),
                forall|k: int| 0 <= k < kids@.len() ==> *(#[trigger] kids@[k]) == widget.nodes()[k],
                lowers(*widget),
                self@.next == old(self)@.next,
                self@.wf(),
                same_shape(old(self)@.windows, self@.windows),
                old(self)@.acyclic(),
                start == old(self).pass(*old(base)),
                compose_from(*widget, i as nat, self.pass(*base)) == compose(*widget, start),
                fits_from(*widget, i as nat, self.pass(*base)) == fits(*widget, start),
                left_by_from(*widget, i as nat, self.pass(*base)) == left_by(*widget, start),
            decreases kids@.len() - i,
        {
            proof {
                lemma_same_shape_acyclic(old(self)@.windows, self@.windows);
            }
            match self.try_render_window(base, kids[i]) {
                None => {
                    return None;
                },
                Some(Err(e)) => {
                    return Some(Err(e));
                },
                Some(Ok(())) => {},
            }
            i += 1;
        }
        Some(Ok(()))
    }

    /// One render pass over the tree below `widget`, into `base`.
    fn render_window<W: Widget>(&mut self, base: &mut Bitmap, widget: &W) -> (done: Result<(), Error>)
        requires
            old(self)@.wf(),
            old(self)@.acyclic(),
            fits(*widget, old(self).pass(*old(base))),
        ensures
            final(self)@.next == old(self)@.next,
            final(self)@.wf(),
            same_shape(old(self)@.windows, final(self)@.windows),
            match compose(*widget, old(self).pass(*old(base))) {
                Ok(pass) => done is Ok && final(self).pass(*final(base)) == pass,
                Err(halt) => (done matches Err(e) && e@ == halt.failure) && final(self)@.windows
                    == halt.windows,
            },
        decreases widget.levels(),
    {
        let id = widget.windowid();
        let drawn = match self.get(id) {
            None => {
                return Err(Error::WindowNotFound(id));
            },
            Some(window) => widget.render(window),
        };
        match self.place(base, id, drawn) {
            Err(e) => {
                return Err(e);
            },
            Ok(()) => {},
        }
        let kids = widget.children();
        let ghost start = old(self).pass(*old(base));
        let mut i: usize = 0;
        while i < kids.len()
            invariant
                i <= kids@.len(),
                kids@.len() == widget.nodes().len(),
                forall|k: int| 0 <= k < kids@.len() ==> *(#[trigger] kids@[k]) == widget.nodes()[k],
                lowers(*widget),
                self@.next == old(self)@.next,
                self@.wf(),
                same_shape(old(self)@.windows, self@.windows),
                old(self)@.acyclic(),
                start == old(self).pass(*old(base)),
                compose_from(*widget, i as nat, self.pass(*base)) == compose(*widget, start),
                fits_from(*widget, i as nat, self.pass(*base)),
            decreases kids@.len() - i,
        {
            proof {
                lemma_same_shape_acyclic(old(self)@.windows, self@.windows);
            }
            match self.render_window(base, kids[i]) {
                Err(e) => {
                    return Err(e);
                },
                Ok(()) => {},
            }
            i += 1;
        }
        Ok(())
    }

    /// One render pass over the tree below `root`: every widget draws, each
    /// record takes the size of what its widget drew, and the frame composed of
    /// the drawings comes back. The first widget without a record, or that
    /// fails to draw, stops the pass, and no frame comes back.
    pub fn render<W: Widget>(&mut self, root: &W) -> (frame: Result<Bitmap, Error>)
        requires
            old(self)@.wf(),
            old(self)@.acyclic(),
            fits(*root, Pass::start(old(self)@.windows)),
        ensures
            final(self)@.next == old(self)@.next,
            final(self)@.wf(),
            final(self)@.acyclic(),
            same_shape(old(self)@.windows, final(self)@.windows),
            match compose(*root, Pass::start(old(self)@.windows)) {
                Ok(pass) => (frame matches Ok(bitmap) && bitmap@ == pass.frame) && final(self)@.windows
                    == pass.windows,
                Err(halt) => (frame matches Err(e) && e@ == halt.failure) && final(self)@.windows
                    == halt.windows,
            },
    {
        let mut bitmap = Bitmap::new(0, 0);
        let done = self.render_window(&mut bitmap, root);
        proof {
            lemma_same_shape_acyclic(old(self)@.windows, self@.windows);
        }
        match done {
            Err(e) => Err(e),
            Ok(()) => Ok(bitmap),
        }
    }

    /// `render`, for drawings of any size at any position: a pass that would
    /// place a drawing beyond what a `usize` can hold stops before it does, and
    /// the answer is `None`. The records are left as the pass had them when it
    /// stopped.
    pub fn try_render<W: Widget>(&mut self, root: &W) -> (frame: Option<Result<Bitmap, Error>>)
        requires
            old(self)@.wf(),
            old(self)@.acyclic(),
        ensures
            final(self)@.next == old(self)@.next,
            final(self)@.wf(),
            final(self)@.acyclic(),
            same_shape(old(self)@.windows, final(self)@.windows),
            final(self)@.windows == left_by(*root, Pass::start(old(self)@.windows)),
            frame is Some <==> fits(*root, Pass::start(old(self)@.windows)),
            frame matches Some(done) ==> match compose(*root, Pass::start(old(self)@.windows)) {
                Ok(pass) => (done matches Ok(bitmap) && bitmap@ == pass.frame) && final(self)@.windows
                    == pass.windows,
                Err(halt) => (done matches Err(e) && e@ == halt.failure) && final(self)@.windows
                    == halt.windows,
            },
    {
        let mut bitmap = Bitmap::new(0, 0);
        let done = self.try_render_window(&mut bitmap, root);
        proof {
            lemma_same_shape_acyclic(old(self)@.windows, self@.windows);
        }
        match done {
            None => None,
            Some(Err(e)) => Some(Err(e)),
            Some(Ok(())) => Some(Ok(bitmap)),
        }
    }
}

} // verus!
