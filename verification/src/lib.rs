#![allow(non_camel_case_types)]
pub mod elf;
pub mod gdt;
pub mod idt;
pub mod mem;
pub mod sched;
pub mod timers;

use core::fmt::Debug;
use crate::mem::pmm::{
    cache, freed_slabs, has_free, is_kmalloc_size, kmalloc_sizes, slab_alloc_post, FreePageList, SLAB_HEADER_SIZE,
};
use vstd::prelude::*;

verus! {

/// A node of a singly linked list.
pub struct Element<T: Debug + PartialEq> {
    pub elem: T,
    pub next: ELink<T>,
}

pub type ELink<T> = Option<Box<Element<T>>>;

/// The items reachable from a link, head first.
pub open spec fn link_seq<T: Debug + PartialEq>(link: ELink<T>) -> Seq<T>
    decreases link,
{
    match link {
        None => Seq::empty(),
        Some(node) => seq![node.elem] + link_seq(node.next),
    }
}

/// A stack of items in a singly linked list: `push` and `pop` work at the head.
pub struct List<T: Debug + PartialEq> {
    head: ELink<T>,
}

impl<T: Debug + PartialEq> View for List<T> {
    type V = Seq<T>;

    closed spec fn view(&self) -> Seq<T> {
        link_seq(self.head)
    }
}

impl<T: Debug + PartialEq> List<T> {
    pub fn new<R>() -> (r: Self)
        ensures
            r@ == Seq::<T>::empty(),
    {
        List { head: None }
    }

    /// Puts `r` on top of the stack.
    pub fn push(&mut self, r: T)
        ensures
            final(self)@ == seq![r] + old(self)@,
    {
        let new_node = Box::new(Element { elem: r, next: self.head.take() });
        self.head = Some(new_node);
    }

    /// Takes the top item off the stack; `None` when the stack is empty.
    pub fn pop(&mut self) -> (r: Option<T>)
        ensures
            old(self)@.len() == 0 ==> r is None && final(self)@ == old(self)@,
            old(self)@.len() > 0 ==> r == Some(old(self)@[0]) && final(self)@ == old(self)@.drop_first(),
    {
        match self.head.take() {
            None => None,
            Some(node) => {
                let Element { elem, next } = *node;
                self.head = next;
                Some(elem)
            },
        }
    }

    /// The top item, if any.
    pub fn peek(&self) -> (r: Option<&T>)
        ensures
            self@.len() == 0 ==> r is None,
            self@.len() > 0 ==> r == Some(&self@[0]),
    {
        match &self.head {
            None => None,
            Some(node) => Some(&node.elem),
        }
    }

    /// A mutable reference to the top item, if any.
    pub fn peek_mut(&mut self) -> (r: Option<&mut T>)
        ensures
            old(self)@.len() == 0 <==> r is None,
            r is None ==> final(self)@ == old(self)@,
            r matches Some(e) ==> *e == old(self)@[0] && final(self)@ == old(self)@.update(0, *final(e)),
    {
        match &mut self.head {
            None => None,
            Some(node) => Some(&mut node.elem),
        }
    }

    /// A mutable reference to the node that holds the top item, if any.
    pub fn peek_raw(&mut self) -> (r: Option<&mut Box<Element<T>>>)
        ensures
            old(self)@.len() == 0 <==> r is None,
            r is None ==> final(self)@ == old(self)@,
            r matches Some(b) ==> old(self)@ == node_seq(**b) && final(self)@ == node_seq(**final(b)),
    {
        match &mut self.head {
            None => None,
            Some(node) => Some(node),
        }
    }

    /// Turns the list into an iterator that hands out its items, top first.
    pub fn into_iter(self) -> (r: ListIter<T>)
        ensures
            r@ == self@,
    {
        ListIter(self)
    }

    /// An iterator over references to the items, top first.
    pub fn iter<'a>(&'a self) -> (r: Iter<'a, T>)
        ensures
            r@ == self@,
    {
        Iter { next: match &self.head { None => None, Some(node) => Some(&**node) } }
    }

    /// An iterator over mutable references to the items, top first.
    pub fn iter_mut<'a>(&'a mut self) -> (r: IterMut<'a, T>)
        ensures
            r@ == old(self)@,
            r.next is None ==> final(self)@ == Seq::<T>::empty(),
            r.next matches Some(e) ==> final(self)@ == node_seq(*final(e)),
    {
        IterMut { next: match &mut self.head { None => None, Some(node) => Some(&mut **node) } }
    }
}

/// Popping a stack right after pushing `x` on it gives `x` back and leaves
/// the stack as it was; peeking in between sees `x`.
pub proof fn push_then_pop<T>(s: Seq<T>, x: T)
    ensures
        (seq![x] + s).len() > 0,
        (seq![x] + s)[0] == x,
        (seq![x] + s).drop_first() == s,
{
    assert((seq![x] + s).drop_first() =~= s);
}

/// The items held by a node and the nodes after it.
pub open spec fn node_seq<T: Debug + PartialEq>(e: Element<T>) -> Seq<T> {
    seq![e.elem] + link_seq(e.next)
}

/// Owning iterator of a [`List`].
pub struct ListIter<T: Debug + PartialEq>(List<T>);

impl<T: Debug + PartialEq> View for ListIter<T> {
    type V = Seq<T>;

    closed spec fn view(&self) -> Seq<T> {
        self.0@
    }
}

impl<T: Debug + PartialEq> ListIter<T> {
    /// The next item; `None` once all items were handed out.
    pub fn next(&mut self) -> (r: Option<T>)
        ensures
            old(self)@.len() == 0 ==> r is None && final(self)@ == old(self)@,
            old(self)@.len() > 0 ==> r == Some(old(self)@[0]) && final(self)@ == old(self)@.drop_first(),
    {
        self.0.pop()
    }
}

/// Borrowing iterator over the items of a list.
pub struct Iter<'a, T: Debug + PartialEq> {
    next: Option<&'a Element<T>>,
}

impl<'a, T: Debug + PartialEq> View for Iter<'a, T> {
    type V = Seq<T>;

    closed spec fn view(&self) -> Seq<T> {
        match self.next {
            None => Seq::empty(),
            Some(e) => node_seq(*e),
        }
    }
}

impl<'a, T: Debug + PartialEq> Iter<'a, T> {
    /// A reference to the next item; `None` once all items were visited.
    pub fn next(&mut self) -> (r: Option<&'a T>)
        ensures
            old(self)@.len() == 0 ==> r is None && final(self)@ == old(self)@,
            old(self)@.len() > 0 ==> r == Some(&old(self)@[0]) && final(self)@ == old(self)@.drop_first(),
    {
        match self.next.take() {
            None => None,
            Some(node) => {
                self.next = match &node.next { None => None, Some(b) => Some(&**b) };
                Some(&node.elem)
            },
        }
    }
}

} // verus!

verus! {

/// Borrowing iterator over mutable references to the items of a list.
pub struct IterMut<'a, T: Debug + PartialEq> {
    pub next: Option<&'a mut Element<T>>,
}

impl<'a, T: Debug + PartialEq> View for IterMut<'a, T> {
    type V = Seq<T>;

    closed spec fn view(&self) -> Seq<T> {
        match self.next {
            None => Seq::empty(),
            Some(e) => node_seq(*e),
        }
    }
}

impl<'a, T: Debug + PartialEq> IterMut<'a, T> {
    /// A mutable reference to the next item; `None` once all items were visited.
    pub fn next(&mut self) -> (r: Option<&'a mut T>)
        ensures
            old(self)@.len() == 0 ==> r is None && final(self)@ == old(self)@,
            old(self)@.len() > 0 ==> r is Some && *r->0 == old(self)@[0] && final(self)@ == old(self)@.drop_first(),
            r matches Some(e) ==> (old(self).next matches Some(n) && (final(self).next matches Some(m)
                ==> node_seq(*final(n)) == seq![*final(e)] + node_seq(*final(m)))
                && (final(self).next is None ==> node_seq(*final(n)) == seq![*final(e)])),
    {
        match self.next.take() {
            None => None,
            Some(node) => {
                self.next = match &mut node.next { None => None, Some(b) => Some(&mut **b) };
                Some(&mut node.elem)
            },
        }
    }
}

} // verus!

verus! {

/// A stack like [`List`] whose nodes take their memory from a slab cache.
///
/// `objs` holds the address of the cache object of each node, top first.
pub struct VList<T: Debug + PartialEq> {
    head: ELink<T>,
    cache: cache,
    objs: Vec<usize>,
}

impl<T: Debug + PartialEq> View for VList<T> {
    type V = Seq<T>;

    closed spec fn view(&self) -> Seq<T> {
        link_seq(self.head)
    }
}

/// A node given back goes to the heap, which hands it to the slab whose
/// header lies in its page when the heap has a cache of that slab's object
/// size and the node is no larger than a page.
pub open spec fn node_returns<T: Debug + PartialEq>(c: cache) -> bool {
    vstd::layout::size_of::<Element<T>>() <= 4096 && kmalloc_sizes().contains(c.obj_size())
}

impl<T: Debug + PartialEq> VList<T> {
    /// The cache that nodes come from.
    pub closed spec fn node_cache(&self) -> cache {
        self.cache
    }

    /// The addresses of the cache objects the nodes took, top first.
    pub closed spec fn objects(&self) -> Seq<usize> {
        self.objs@
    }

    pub fn new<R>(t: cache) -> (r: Self)
        ensures
            r@ == Seq::<T>::empty(),
            r.node_cache() == t,
            r.objects() == Seq::<usize>::empty(),
    {
        VList { head: None, cache: t, objs: Vec::new() }
    }

    /// Puts `r` on top of the stack in a node that takes an object from the
    /// cache; a new slab comes from `pmm` (seen through the direct map at
    /// `hhdm`) when the cache has no free object.
    ///
    /// The object's address is recorded in `objects()`; the node itself is
    /// held in a heap `Box`, not written at that address.
    pub fn push(&mut self, pmm: &mut FreePageList, hhdm: usize, r: T)
        requires
            old(self).node_cache().wf(),
            old(self).node_cache().slab_seq().len() > 0,
            !has_free(old(self).node_cache().slab_seq()) ==> {
                &&& old(pmm).pages().len() > 0
                &&& old(pmm).pages().last() + hhdm + SLAB_HEADER_SIZE <= usize::MAX
                &&& forall|k: int|
                    0 <= k < old(self).node_cache().slab_seq().len() ==> (#[trigger] old(
                        self,
                    ).node_cache().slab_seq()[k]).at != old(pmm).pages().last() + hhdm
            },
        ensures
            final(self)@ == seq![r] + old(self)@,
            final(self).node_cache().wf(),
            exists|a: usize| {
                &&& slab_alloc_post(old(self).node_cache(), final(self).node_cache(), *old(pmm), *final(pmm), hhdm, Some(a))
                &&& #[trigger] final(self).objects() == seq![a] + old(self).objects()
            },
    {
        let ghost c0 = self.cache;
        let a = self.cache.slab_allocsearch(pmm, hhdm).unwrap();
        assert(slab_alloc_post(c0, self.cache, *old(pmm), *pmm, hhdm, Some(a)));
        self.objs.insert(0, a);
        proof {
            assert(self.objs@ =~= seq![a] + old(self).objects());
        }
        let new_node = Box::new(Element { elem: r, next: self.head.take() });
        self.head = Some(new_node);
    }

    /// Takes the top item off the stack; `None` when the stack is empty.  The
    /// object of its node goes back to the heap (see [`node_returns`]).
    pub fn pop(&mut self) -> (r: Option<T>)
        requires
            old(self).node_cache().wf(),
        ensures
            final(self).node_cache().wf(),
            final(self).node_cache().obj_size() == old(self).node_cache().obj_size(),
            old(self)@.len() == 0 ==> r is None && final(self)@ == old(self)@ && final(self).node_cache()
                == old(self).node_cache() && final(self).objects() == old(self).objects(),
            old(self)@.len() > 0 ==> r == Some(old(self)@[0]) && final(self)@ == old(self)@.drop_first(),
            old(self)@.len() > 0 && old(self).objects().len() == 0 ==> final(self).node_cache() == old(self).node_cache()
                && final(self).objects() == old(self).objects(),
            old(self)@.len() > 0 && old(self).objects().len() > 0 ==> {
                let a = old(self).objects()[0];
                &&& final(self).objects() == old(self).objects().drop_first()
                &&& node_returns::<T>(old(self).node_cache()) && a != 0 ==> final(self).node_cache().slab_seq()
                    == freed_slabs(old(self).node_cache().slab_seq(), a)
                &&& !(node_returns::<T>(old(self).node_cache()) && a != 0) ==> final(self).node_cache()
                    == old(self).node_cache()
            },
    {
        match self.head.take() {
            None => None,
            Some(node) => {
                let Element { elem, next } = *node;
                self.head = next;
                if self.objs.len() > 0 {
                    let a = self.objs.remove(0);
                    proof {
                        assert(self.objs@ =~= old(self).objects().drop_first());
                    }
                    let node_size = core::mem::size_of::<Element<T>>();
                    if node_size <= 4096 && is_kmalloc_size(self.cache.size()) && a != 0 {
                        self.cache.free_in_slab(a);
                    }
                }
                Some(elem)
            },
        }
    }

    /// The top item, if any.
    pub fn peek(&self) -> (r: Option<&T>)
        ensures
            self@.len() == 0 ==> r is None,
            self@.len() > 0 ==> r == Some(&self@[0]),
    {
        match &self.head {
            None => None,
            Some(node) => Some(&node.elem),
        }
    }

    /// A mutable reference to the top item, if any.
    pub fn peek_mut(&mut self) -> (r: Option<&mut T>)
        ensures
            final(self).node_cache() == old(self).node_cache(),
            final(self).objects() == old(self).objects(),
            old(self)@.len() == 0 <==> r is None,
            r is None ==> final(self)@ == old(self)@,
            r matches Some(e) ==> *e == old(self)@[0] && final(self)@ == old(self)@.update(0, *final(e)),
    {
        match &mut self.head {
            None => None,
            Some(node) => Some(&mut node.elem),
        }
    }

    /// A mutable reference to the node that holds the top item, if any.
    pub fn peek_raw(&mut self) -> (r: Option<&mut Box<Element<T>>>)
        ensures
            final(self).node_cache() == old(self).node_cache(),
            final(self).objects() == old(self).objects(),
            old(self)@.len() == 0 <==> r is None,
            r is None ==> final(self)@ == old(self)@,
            r matches Some(b) ==> old(self)@ == node_seq(**b) && final(self)@ == node_seq(**final(b)),
    {
        match &mut self.head {
            None => None,
            Some(node) => Some(node),
        }
    }

    /// Turns the list into an iterator that hands out its items, top first.
    pub fn into_iter(self) -> (r: ListIterV<T>)
        ensures
            r@ == self@,
            r.list() == self,
    {
        ListIterV(self)
    }

    /// An iterator over references to the items, top first.
    pub fn iter<'a>(&'a self) -> (r: Iter<'a, T>)
        ensures
            r@ == self@,
    {
        Iter { next: match &self.head { None => None, Some(node) => Some(&**node) } }
    }

    /// An iterator over mutable references to the items, top first.
    pub fn iter_mut<'a>(&'a mut self) -> (r: IterMut<'a, T>)
        ensures
            r@ == old(self)@,
            final(self).node_cache() == old(self).node_cache(),
            final(self).objects() == old(self).objects(),
            r.next is None ==> final(self)@ == Seq::<T>::empty(),
            r.next matches Some(e) ==> final(self)@ == node_seq(*final(e)),
    {
        IterMut { next: match &mut self.head { None => None, Some(node) => Some(&mut **node) } }
    }
}

/// Owning iterator of a [`VList`].
pub struct ListIterV<T: Debug + PartialEq>(VList<T>);

impl<T: Debug + PartialEq> View for ListIterV<T> {
    type V = Seq<T>;

    closed spec fn view(&self) -> Seq<T> {
        self.0@
    }
}

impl<T: Debug + PartialEq> ListIterV<T> {
    /// The list whose items are left.
    pub closed spec fn list(&self) -> VList<T> {
        self.0
    }

    /// The next item, popped from the list; `None` once all items were
    /// handed out.
    pub fn next(&mut self) -> (r: Option<T>)
        requires
            old(self).list().node_cache().wf(),
        ensures
            final(self).list().node_cache().wf(),
            final(self).list().node_cache().obj_size() == old(self).list().node_cache().obj_size(),
            old(self)@.len() == 0 ==> r is None && final(self)@ == old(self)@ && final(self).list().node_cache()
                == old(self).list().node_cache() && final(self).list().objects() == old(self).list().objects(),
            old(self)@.len() > 0 ==> r == Some(old(self)@[0]) && final(self)@ == old(self)@.drop_first(),
            old(self)@.len() > 0 && old(self).list().objects().len() == 0 ==> final(self).list().node_cache()
                == old(self).list().node_cache() && final(self).list().objects() == old(self).list().objects(),
            old(self)@.len() > 0 && old(self).list().objects().len() > 0 ==> {
                let c = old(self).list().node_cache();
                let a = old(self).list().objects()[0];
                &&& final(self).list().objects() == old(self).list().objects().drop_first()
                &&& node_returns::<T>(c) && a != 0 ==> final(self).list().node_cache().slab_seq() == freed_slabs(
                    c.slab_seq(),
                    a,
                )
                &&& !(node_returns::<T>(c) && a != 0) ==> final(self).list().node_cache() == c
            },
    {
        self.0.pop()
    }
}

} // verus!
