//! List items carrying a stable id and an active flag, as the configuration
//! UI keeps them.

use vstd::prelude::*;

verus! {

/// One list item with its id and active flag.
#[derive(Debug)]
pub struct IdItem<T> {
    pub id: usize,
    pub item: T,
    pub active: bool,
}

/// The largest id in the list.
pub open spec fn spec_max_id<T>(s: Seq<IdItem<T>>) -> int
    decreases s.len(),
{
    if s.len() == 0 {
        0
    } else {
        let rest = spec_max_id(s.drop_last());
        if s.last().id >= rest {
            s.last().id as int
        } else {
            rest
        }
    }
}

/// The items of the active entries, in order.
pub open spec fn spec_active_items<T>(s: Seq<IdItem<T>>) -> Seq<T>
    decreases s.len(),
{
    if s.len() == 0 {
        Seq::empty()
    } else {
        let rest = spec_active_items(s.drop_last());
        if s.last().active {
            rest.push(s.last().item)
        } else {
            rest
        }
    }
}

impl<T> IdItem<T> {
    /// The items wrapped in order, ids counting from zero, all active.
    pub fn from_vec(items: Vec<T>) -> (r: Vec<IdItem<T>>)
        ensures
            r@.len() == items@.len(),
            forall|k: int|
                0 <= k < items@.len() ==> (#[trigger] r@[k]).id == k && r@[k].active && r@[k].item
                    == items@[k],
    {
        let ghost itemsv = items@;
        let mut rest = items;
        let mut out: Vec<IdItem<T>> = Vec::new();
        while rest.len() > 0
            invariant
                out@.len() + rest@.len() == itemsv.len(),
                forall|k: int| 0 <= k < rest@.len() ==> #[trigger] rest@[k] == itemsv[out@.len() + k],
                forall|k: int|
                    0 <= k < out@.len() ==> (#[trigger] out@[k]).id == k && out@[k].active
                        && out@[k].item == itemsv[k],
            decreases rest@.len(),
        {
            let ghost pre = rest@;
            let id = out.len();
            let item = rest.remove(0);
            proof {
                assert(pre[0] == itemsv[out@.len() as int]);
                assert(rest@ =~= pre.subrange(1, pre.len() as int));
            }
            out.push(IdItem { id, item, active: true });
        }
        out
    }
}

/// The list operations the configuration UI needs of a vector of id items.
pub trait IdItemVec<T: Clone> {
    /// Appends the item as an active entry whose id exceeds every existing
    /// one.
    fn push_item(&mut self, item: T)
        requires
            spec_max_id(old(self).view_items()) + 1 <= usize::MAX,
        ensures
            final(self).view_items().len() == old(self).view_items().len() + 1,
            final(self).view_items().drop_last() == old(self).view_items(),
            final(self).view_items().last().item == item,
            final(self).view_items().last().active,
            final(self).view_items().last().id == (if old(self).view_items().len() == 0 {
                0int
            } else {
                spec_max_id(old(self).view_items()) + 1
            }),
    ;

    /// The items of the active entries, in order.
    fn create_active_item_vec(&self) -> (r: Vec<T>)
        ensures
            r@.len() == spec_active_items(self.view_items()).len(),
            forall|k: int|
                0 <= k < r@.len() ==> vstd::pervasive::cloned::<T>(
                    spec_active_items(self.view_items())[k],
                    #[trigger] r@[k],
                ),
    ;

    /// The entries the implementing container holds.
    spec fn view_items(&self) -> Seq<IdItem<T>>;
}

impl<T: Clone> IdItemVec<T> for Vec<IdItem<T>> {
    open spec fn view_items(&self) -> Seq<IdItem<T>> {
        self@
    }

    fn push_item(&mut self, item: T) {
        let n: usize = self.len();
        let mut max: usize = 0;
        let mut i: usize = 0;
        proof {
            assert(self@.take(0) =~= Seq::<IdItem<T>>::empty());
        }
        while i < n
            invariant
                n == self@.len(),
                i <= n,
                max as int == spec_max_id(self@.take(i as int)),
                spec_max_id(self@) + 1 <= usize::MAX,
            decreases n - i,
        {
            proof {
                assert(self@.take(i as int + 1).drop_last() =~= self@.take(i as int));
                assert(self@.take(i as int + 1).last() == self@[i as int]);
                lemma_max_id_take_grows(self@, i as int + 1);
            }
            if self[i].id > max {
                max = self[i].id;
            }
            i += 1;
        }
        proof {
            assert(self@.take(n as int) =~= self@);
        }
        let id: usize = if n == 0 {
            0
        } else {
            max + 1
        };
        self.push(IdItem { id, item, active: true });
        proof {
            assert(final(self)@.drop_last() =~= old(self)@);
        }
    }

    fn create_active_item_vec(&self) -> (r: Vec<T>) {
        let n: usize = self.len();
        let mut out: Vec<T> = Vec::new();
        let mut i: usize = 0;
        while i < n
            invariant
                n == self@.len(),
                i <= n,
                out@.len() == spec_active_items(self@.take(i as int)).len(),
                forall|k: int|
                    0 <= k < out@.len() ==> vstd::pervasive::cloned::<T>(
                        spec_active_items(self@.take(i as int))[k],
                        #[trigger] out@[k],
                    ),
            decreases n - i,
        {
            proof {
                assert(self@.take(i as int + 1).drop_last() =~= self@.take(i as int));
                assert(self@.take(i as int + 1).last() == self@[i as int]);
            }
            if self[i].active {
                out.push(self[i].item.clone());
            }
            i += 1;
        }
        proof {
            assert(self@.take(n as int) =~= self@);
        }
        out
    }
}

/// The running maximum over a prefix never exceeds the whole list's maximum.
proof fn lemma_max_id_take_grows<T>(s: Seq<IdItem<T>>, i: int)
    requires
        0 <= i <= s.len(),
    ensures
        spec_max_id(s.take(i)) <= spec_max_id(s),
    decreases s.len() - i,
{
    if i == s.len() {
        assert(s.take(i) =~= s);
    } else {
        lemma_max_id_take_grows(s, i + 1);
        assert(s.take(i + 1).drop_last() =~= s.take(i));
    }
}

} // verus!
