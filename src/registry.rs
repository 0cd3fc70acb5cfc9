//! Registration of the attribute types whose history is kept.
use vstd::prelude::*;
use vstd::layout::{align_of, size_of};
use crate::layout::ItemLayout;

verus! {

/// How an attribute turns its authoritative and predicted values into the one that is loaded.
#[derive(Clone, Copy, Debug, PartialEq, Eq)]
pub enum LoadPolicy {
    /// The authoritative value when there is one, else the predicted one: see [`load_default`].
    PreferAuthoritative,
    /// A reconciliation of the attribute's own.
    Custom,
}

/// Describes a registered attribute type: the layout of its values and how they are loaded.
#[derive(Clone, Copy, Debug)]
pub struct HistoryComponent {
    layout: ItemLayout,
    load: LoadPolicy,
}

impl HistoryComponent {
    pub closed spec fn spec_layout(&self) -> ItemLayout {
        self.layout
    }

    pub closed spec fn spec_load(&self) -> LoadPolicy {
        self.load
    }

    /// Whether this describes values of type `T` loaded with `load`.
    pub open spec fn describes_type<T>(&self, load: LoadPolicy) -> bool {
        &&& self.spec_layout().wf()
        &&& self.spec_layout().spec_size() as nat == size_of::<T>()
        &&& self.spec_layout().spec_align() as nat == align_of::<T>()
        &&& self.spec_load() == load
    }

    /// The descriptor of `T`, loaded with [`load_default`].
    pub fn new<T>() -> (r: Self)
        ensures
            r.describes_type::<T>(LoadPolicy::PreferAuthoritative),
    {
        HistoryComponent { layout: ItemLayout::of::<T>(), load: LoadPolicy::PreferAuthoritative }
    }

    /// The descriptor of `T`, loaded with a reconciliation of its own.
    pub fn with_load<T>() -> (r: Self)
        ensures
            r.describes_type::<T>(LoadPolicy::Custom),
    {
        HistoryComponent { layout: ItemLayout::of::<T>(), load: LoadPolicy::Custom }
    }

    /// The size of one value.
    pub fn size(&self) -> (r: usize)
        ensures
            r == self.spec_layout().spec_size(),
    {
        self.layout.size()
    }

    /// The layout of one value.
    pub fn layout(&self) -> (r: ItemLayout)
        ensures
            r == self.spec_layout(),
    {
        self.layout
    }

    /// How values are loaded.
    pub fn load_policy(&self) -> (r: LoadPolicy)
        ensures
            r == self.spec_load(),
    {
        self.load
    }
}

/// The default reconciliation: the authoritative value when there is one, else the
/// predicted one.
pub fn load_default<'a, T>(authoritative: Option<&'a T>, predicted: Option<&'a T>) -> (r: Option<
    &'a T,
>)
    ensures
        r == if authoritative is Some {
            authoritative
        } else {
            predicted
        },
{
    match authoritative {
        Some(a) => Some(a),
        None => predicted,
    }
}

/// The registered attribute types. Registering hands out the attribute id, a stable index.
#[derive(Debug)]
pub struct RollbackRegistry {
    components: Vec<HistoryComponent>,
}

impl RollbackRegistry {
    /// The descriptors, by attribute id.
    pub closed spec fn view(&self) -> Seq<HistoryComponent> {
        self.components@
    }

    /// No attribute registered.
    pub fn new() -> (r: Self)
        ensures
            r@ == Seq::<HistoryComponent>::empty(),
    {
        RollbackRegistry { components: Vec::new() }
    }

    /// Registers `T`, loaded with [`load_default`], and returns its attribute id.
    pub fn register<T>(&mut self) -> (id: usize)
        ensures
            id == old(self)@.len(),
            final(self)@.len() == old(self)@.len() + 1,
            final(self)@.subrange(0, id as int) == old(self)@,
            final(self)@[id as int].describes_type::<T>(LoadPolicy::PreferAuthoritative),
    {
        let id = self.components.len();
        self.components.push(HistoryComponent::new::<T>());
        assert(self@.subrange(0, id as int) =~= old(self)@);
        id
    }

    /// Registers `T`, loaded with a reconciliation of its own, and returns its attribute id.
    pub fn register_with_load<T>(&mut self) -> (id: usize)
        ensures
            id == old(self)@.len(),
            final(self)@.len() == old(self)@.len() + 1,
            final(self)@.subrange(0, id as int) == old(self)@,
            final(self)@[id as int].describes_type::<T>(LoadPolicy::Custom),
    {
        let id = self.components.len();
        self.components.push(HistoryComponent::with_load::<T>());
        assert(self@.subrange(0, id as int) =~= old(self)@);
        id
    }

    /// The descriptor registered under `id`.
    pub fn get(&self, id: usize) -> (r: Option<&HistoryComponent>)
        ensures
            id < self@.len() ==> r == Some(&self@[id as int]),
            id >= self@.len() ==> r is None,
    {
        if id < self.components.len() {
            Some(&self.components[id])
        } else {
            None
        }
    }

    /// The number of registered attributes.
    pub fn len(&self) -> (r: usize)
        ensures
            r == self@.len(),
    {
        self.components.len()
    }
}

} // verus!
