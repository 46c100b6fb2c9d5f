//! A walk over a list that shows each item together with its neighbours.

use vstd::prelude::*;

verus! {

/// Walks a list and yields, for each item in turn, the item before it (if
/// any), the item itself and the item after it (if any).
pub struct BefAftWindowIterator<'a, T> {
    cursor: usize,
    started: bool,
    list: &'a Vec<T>,
}

impl<'a, T> BefAftWindowIterator<'a, T> {
    /// The list that is walked.
    pub closed spec fn items(&self) -> Seq<T> {
        self.list@
    }

    /// Position of the item that the next window is centred on; the length
    /// of the list once the walk is over.
    pub closed spec fn upcoming(&self) -> int {
        if !self.started {
            0
        } else if self.cursor < self.list.len() {
            self.cursor + 1
        } else {
            self.list.len() as int
        }
    }

    /// The cursor stays within the list, and at its start until the walk
    /// has begun.
    #[verifier::type_invariant]
    spec fn wf(&self) -> bool {
        self.cursor <= self.list.len() && (!self.started ==> self.cursor == 0)
    }

    /// A walk that starts at the first item of `list`.
    #[must_use]
    pub fn new(list: &'a Vec<T>) -> (r: Self)
        ensures
            r.items() == list@,
            r.upcoming() == 0,
    {
        Self { cursor: 0, started: false, list }
    }

    /// The window centred on position `i` of `items`.
    pub open spec fn window_at(items: Seq<T>, i: int) -> (Option<&'a T>, &'a T, Option<&'a T>) {
        (
            if i == 0 {
                None
            } else {
                Some(&items[i - 1])
            },
            &items[i],
            if i + 1 < items.len() {
                Some(&items[i + 1])
            } else {
                None
            },
        )
    }

    /// The next window, or `None` once every item has been the centre of
    /// one.
    pub fn next(&mut self) -> (r: Option<(Option<&'a T>, &'a T, Option<&'a T>)>)
        ensures
            final(self).items() == old(self).items(),
            0 <= old(self).upcoming() <= old(self).items().len(),
            match r {
                Some(w) => {
                    &&& old(self).upcoming() < old(self).items().len()
                    &&& w == Self::window_at(old(self).items(), old(self).upcoming())
                    &&& final(self).upcoming() == old(self).upcoming() + 1
                },
                None => {
                    &&& old(self).upcoming() == old(self).items().len()
                    &&& final(self).upcoming() == old(self).upcoming()
                },
            },
    {
        proof {
            use_type_invariant(&*self);
        }
        if self.started {
            if self.cursor < self.list.len() {
                self.cursor += 1;
            }
        } else {
            self.started = true;
        }
        if self.cursor >= self.list.len() {
            return None;
        }
        let list: &'a Vec<T> = self.list;
        let bef = if self.cursor == 0 {
            None
        } else {
            Some(&list[self.cursor - 1])
        };
        let aft = if self.cursor + 1 < list.len() {
            Some(&list[self.cursor + 1])
        } else {
            None
        };
        Some((bef, &list[self.cursor], aft))
    }
}

} // verus!
