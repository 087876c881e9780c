//! Value handles: a shared handle that reads, a weak handle made from it,
//! and an exclusively owned one that reads and writes.
//!
//! A handle stands for the value it leads to: `handle@` is that value. The
//! value behind a shared handle never changes, so all handles that share it
//! read the same value for as long as they live, and a weak handle leads to
//! the value that was there when it was made.

use std::hash::Hash;
use std::hash::Hasher;
use std::sync::Arc;
use std::sync::Weak;
use vstd::prelude::*;
use vstd::std_specs::cmp::PartialEqSpec;
use vstd::std_specs::cmp::PartialEqSpecImpl;

verus! {

/// A weak pointer of std, carried through as it is.
#[verifier::external_body]
#[verifier::reject_recursive_types(T)]
pub struct WeakPtr<T> {
    inner: Weak<T>,
}

/// A handle that does not keep its value alive. Whether the value is still
/// there is decided by the shared handles, at run time; while it is there,
/// it is the handle's target.
#[verifier::reject_recursive_types(T)]
pub struct WeakCellWrapper<T> {
    ptr: WeakPtr<T>,
    target: Ghost<T>,
}

/// A handle to a value that any number of handles may share.
pub struct ArcRefCellWrapper<T> {
    inner: Arc<T>,
}

/// An exclusively owned value behind a handle.
pub struct SyncUnsafeCellWrapper<T> {
    inner: T,
}

/// `Arc::clone`: a second pointer to the same allocation, hence to the same
/// value.
#[verifier::external_body]
fn arc_share<T>(shared: &Arc<T>) -> (twin: Arc<T>)
    ensures
        *twin == **shared,
{
    Arc::clone(shared)
}

/// `Arc::downgrade`: a weak pointer to the pointer's allocation, so its
/// target is the value that the pointer leads to.
#[verifier::external_body]
fn arc_downgrade<T>(shared: &Arc<T>) -> (weak: WeakCellWrapper<T>)
    ensures
        weak.target() == **shared,
{
    WeakCellWrapper { ptr: WeakPtr { inner: Arc::downgrade(shared) }, target: Ghost(**shared) }
}

/// `Weak::upgrade`: a strong pointer to the weak pointer's allocation if the
/// value has not been dropped yet. Which of the two comes back depends on the
/// other handles; a pointer that comes back leads to the target.
#[verifier::external_body]
fn weak_upgrade<T>(weak: &WeakCellWrapper<T>) -> (found: Option<Arc<T>>)
    ensures
        found matches Some(shared) ==> *shared == weak.target(),
{
    weak.ptr.inner.upgrade()
}

/// `Weak::clone`: a second weak pointer to the same allocation, hence with
/// the same target.
#[verifier::external_body]
fn weak_share<T>(weak: &WeakCellWrapper<T>) -> (twin: WeakCellWrapper<T>)
    ensures
        twin.target() == weak.target(),
{
    WeakCellWrapper { ptr: WeakPtr { inner: Weak::clone(&weak.ptr.inner) }, target: Ghost(weak.target@) }
}

/// `Hash::hash`: feeds a value to a hasher. What the hasher then holds is its
/// own matter, so nothing is stated.
#[verifier::external_body]
fn feed_hasher<T: Hash, H: Hasher>(value: &T, state: &mut H) {
    value.hash(state)
}

/// What comparing two upgraded weak handles gives: two live values are
/// compared by `T`'s `==`, and a dead handle equals nothing.
pub open spec fn alive_and_equal<T: PartialEq>(a: Option<Arc<T>>, b: Option<Arc<T>>) -> bool {
    match (a, b) {
        (Some(x), Some(y)) => (*x).eq_spec(&*y),
        _ => false,
    }
}

/// Compares what two weak handles were upgraded to.
pub fn upgraded_eq<T: PartialEq>(a: &Option<Arc<T>>, b: &Option<Arc<T>>) -> (equal: bool)
    ensures
        (*a is None || *b is None) ==> !equal,
        T::obeys_eq_spec() ==> equal == alive_and_equal(*a, *b),
{
    match (a, b) {
        (Some(x), Some(y)) => {
            let left: &T = &**x;
            let right: &T = &**y;
            left == right
        },
        _ => false,
    }
}

/// Hashes what a weak handle was upgraded to: a live value is fed to the
/// hasher, a dead handle feeds nothing and leaves the hasher as it was.
pub fn hash_upgraded<T: Hash, H: Hasher>(found: &Option<Arc<T>>, state: &mut H)
    ensures
        *found is None ==> *final(state) == *old(state),
{
    match found {
        Some(shared) => {
            let value: &T = &**shared;
            feed_hasher(value, state)
        },
        None => {},
    }
}

impl<T> WeakCellWrapper<T> {
    /// The value that the handle leads to for as long as that value lives.
    pub closed spec fn target(&self) -> T {
        self.target@
    }

    /// Wraps the outcome of an upgrade.
    pub fn wrap_upgraded(found: Option<Arc<T>>) -> (handle: Option<ArcRefCellWrapper<T>>)
        ensures
            found is None <==> handle is None,
            found matches Some(shared) ==> handle->0@ == *shared,
    {
        match found {
            Some(shared) => Some(ArcRefCellWrapper { inner: shared }),
            None => None,
        }
    }

    /// A shared handle to the target, if some shared handle still keeps it
    /// alive. Whether one comes back is decided at run time; one that comes
    /// back holds the target.
    pub fn upgrade(&self) -> (handle: Option<ArcRefCellWrapper<T>>)
        ensures
            handle matches Some(h) ==> h@ == self.target(),
    {
        Self::wrap_upgraded(weak_upgrade(self))
    }
}

impl<T> Clone for WeakCellWrapper<T> {
    /// A second weak handle with the same target.
    fn clone(&self) -> (twin: Self)
        ensures
            twin.target() == self.target(),
    {
        weak_share(self)
    }
}

impl<T: PartialEq> PartialEq for WeakCellWrapper<T> {
    /// Whether both targets are alive and equal by `T`'s `==`. Handles that
    /// compare equal have equal targets; a dead handle equals nothing.
    fn eq(&self, other: &Self) -> (equal: bool)
        ensures
            T::obeys_eq_spec() && equal ==> self.target().eq_spec(&other.target()),
    {
        let left = weak_upgrade(self);
        let right = weak_upgrade(other);
        upgraded_eq(&left, &right)
    }
}

impl<T: PartialEq> PartialEqSpecImpl for WeakCellWrapper<T> {
    /// `==` on weak handles is no function of the handles: the same two may
    /// compare equal now and unequal once a target has died.
    open spec fn obeys_eq_spec() -> bool {
        false
    }

    /// What `==` gives while both targets live.
    open spec fn eq_spec(&self, other: &Self) -> bool {
        self.target().eq_spec(&other.target())
    }
}

impl<T: PartialEq> Eq for WeakCellWrapper<T> {

}

impl<T: Hash> Hash for WeakCellWrapper<T> {
    /// Feeds the target to the hasher if it is still alive, and nothing
    /// otherwise.
    fn hash<H: Hasher>(&self, state: &mut H) {
        let found = weak_upgrade(self);
        hash_upgraded(&found, state)
    }
}

impl<T> View for ArcRefCellWrapper<T> {
    type V = T;

    closed spec fn view(&self) -> T {
        *self.inner
    }
}

impl<T> ArcRefCellWrapper<T> {
    #[inline]
    pub fn new(value: T) -> (handle: Self)
        ensures
            handle@ == value,
    {
        Self { inner: Arc::new(value) }
    }

    /// A weak handle whose target is this handle's value.
    pub fn downgrade(this: &Self) -> (weak: WeakCellWrapper<T>)
        ensures
            weak.target() == this@,
    {
        arc_downgrade(&this.inner)
    }

    /// The pointer that this handle holds.
    pub fn get_inner(&self) -> (shared: &Arc<T>)
        ensures
            **shared == self@,
    {
        &self.inner
    }
}

impl<T> Clone for ArcRefCellWrapper<T> {
    /// A second handle to the same value; the value is not copied.
    fn clone(&self) -> (twin: Self)
        ensures
            twin@ == self@,
    {
        ArcRefCellWrapper { inner: arc_share(&self.inner) }
    }
}

impl<T: Default> Default for ArcRefCellWrapper<T> {
    fn default() -> (handle: Self)
        ensures
            T::default.ensures((), handle@),
    {
        let value = T::default();
        ArcRefCellWrapper { inner: Arc::new(value) }
    }
}

impl<T: PartialEq> PartialEq for ArcRefCellWrapper<T> {
    fn eq(&self, other: &Self) -> (equal: bool) {
        let left: &T = &*self.inner;
        let right: &T = &*other.inner;
        left == right
    }
}

impl<T: PartialEq> PartialEqSpecImpl for ArcRefCellWrapper<T> {
    open spec fn obeys_eq_spec() -> bool {
        T::obeys_eq_spec()
    }

    open spec fn eq_spec(&self, other: &Self) -> bool {
        self@.eq_spec(&other@)
    }
}

impl<T: PartialEq> Eq for ArcRefCellWrapper<T> {

}

impl<T: Hash> Hash for ArcRefCellWrapper<T> {
    fn hash<H: Hasher>(&self, state: &mut H) {
        let value: &T = &*self.inner;
        feed_hasher(value, state)
    }
}

impl<T> AsRef<T> for ArcRefCellWrapper<T> {
    fn as_ref(&self) -> (value: &T)
        ensures
            *value == self@,
    {
        &*self.inner
    }
}

impl<T> std::ops::Deref for ArcRefCellWrapper<T> {
    type Target = T;

    fn deref(&self) -> (value: &T)
        ensures
            *value == self@,
    {
        &*self.inner
    }
}

impl<T> View for SyncUnsafeCellWrapper<T> {
    type V = T;

    closed spec fn view(&self) -> T {
        self.inner
    }
}

impl<T> SyncUnsafeCellWrapper<T> {
    #[inline]
    pub fn new(value: T) -> (cell: Self)
        ensures
            cell@ == value,
    {
        Self { inner: value }
    }
}

impl<T> AsRef<T> for SyncUnsafeCellWrapper<T> {
    fn as_ref(&self) -> (value: &T)
        ensures
            *value == self@,
    {
        &self.inner
    }
}

impl<T> AsMut<T> for SyncUnsafeCellWrapper<T> {
    fn as_mut(&mut self) -> (value: &mut T)
        ensures
            *value == old(self)@,
            final(self)@ == *final(value),
    {
        &mut self.inner
    }
}

impl<T> std::ops::Deref for SyncUnsafeCellWrapper<T> {
    type Target = T;

    fn deref(&self) -> (value: &T)
        ensures
            *value == self@,
    {
        &self.inner
    }
}

impl<T> std::ops::DerefMut for SyncUnsafeCellWrapper<T> {
    fn deref_mut(&mut self) -> (value: &mut T)
        ensures
            *value == old(self)@,
            final(self)@ == *final(value),
    {
        &mut self.inner
    }
}

} // verus!
