//! Sorting the components of a window by a comparison.
use crate::error::Sort;
use crate::sparse_set::sort_by::{compares_totally, is_total_order, sort_positions_by, sorted_by_le};
use crate::sparse_set::window::{Pack, WindowMut};
use crate::sparse_set::window_sort::{apply_window_order, lemma_window_order, relative_order, window_data, window_reordered};
use std::cmp::Ordering;
use vstd::prelude::*;

verus! {

/// Sorts the components of one window, once a way to sort is picked.
pub struct WindowSort1<'tmp, 'w, T>(pub &'tmp mut WindowMut<'w, T>);

impl<'w, T> WindowMut<'w, T> {
    /// Prepares this window to be sorted.
    pub fn sort(&mut self) -> (s: WindowSort1<'_, 'w, T>)
        ensures
            *s.0 == *old(self),
            *final(self) == *final(s.0),
    {
        WindowSort1(self)
    }
}

impl<'tmp, 'w, T> WindowSort1<'tmp, 'w, T> {
    /// Sorts the window's components with `cmp`, a total order, by an unstable algorithm that
    /// may reorder equal components, and gives the sparse list their new positions. Only a
    /// storage without packing can be sorted.
    pub fn try_unstable<F: FnMut(&T, &T) -> Ordering>(self, cmp: F) -> (r: Result<(), Sort>)
        requires
            old(self.0).wf(),
            old(self.0).len_spec() + old(self.0).offset <= usize::MAX,
            old(self.0).store().pack is NoPack ==> compares_totally(cmp),
        ensures
            *final(final(self.0).storage) == *final(old(self.0).storage),
            final(self.0).wf(),
            final(self.0).start == old(self.0).start,
            final(self.0).end == old(self.0).end,
            final(self.0).offset == old(self.0).offset,
            match old(self.0).store().pack {
                Pack::NoPack => {
                    &&& r is Ok
                    &&& window_reordered(old(self.0).store(), final(self.0).store(), old(self.0).start, old(self.0).end,
                        old(self.0).offset)
                    &&& forall|le: spec_fn(T, T) -> bool| #[trigger] is_total_order(cmp, le)
                        ==> sorted_by_le(window_data(final(self.0).store(), old(self.0).start, old(self.0).end), le)
                },
                Pack::Update(_) => r == Err::<(), Sort>(Sort::MissingPackStorage) && final(self.0).store() == old(self.0).store(),
            },
    {
        let WindowSort1(window) = self;
        let packed = match &window.storage.pack {
            Pack::NoPack => false,
            Pack::Update(_) => true,
        };
        if packed {
            return Err(Sort::MissingPackStorage);
        }
        let n = window.end - window.start;
        let mut positions = window.dense_positions();
        sort_positions_by(&mut positions, &window.storage.data, cmp);
        let t = relative_order(&positions, window.start, n);
        let ghost before = *window.storage;
        apply_window_order(window.storage, window.start, window.end, window.offset, &t);
        proof {
            lemma_window_order(before, *window.storage, window.start, window.end, window.offset, t@, positions@);
        }
        Ok(())
    }

    /// Sorts the window's components with `cmp`; see [`WindowSort1::try_unstable`].
    pub fn unstable<F: FnMut(&T, &T) -> Ordering>(self, cmp: F)
        requires
            old(self.0).wf(),
            old(self.0).store().pack is NoPack,
            old(self.0).len_spec() + old(self.0).offset <= usize::MAX,
            compares_totally(cmp),
        ensures
            *final(final(self.0).storage) == *final(old(self.0).storage),
            final(self.0).wf(),
            window_reordered(old(self.0).store(), final(self.0).store(), old(self.0).start, old(self.0).end,
                old(self.0).offset),
            forall|le: spec_fn(T, T) -> bool| #[trigger] is_total_order(cmp, le)
                ==> sorted_by_le(window_data(final(self.0).store(), old(self.0).start, old(self.0).end), le),
    {
        let _ = self.try_unstable(cmp);
    }
}

} // verus!
