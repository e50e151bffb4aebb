//! Values that are stored as they are.
use vstd::prelude::*;

verus! {

/// A value that is stored in the archive as it is, without a separate stored
/// form.
#[derive(Debug, Default)]
pub struct Id<T>(pub T);

impl<T: Clone> Clone for Id<T> {
    fn clone(&self) -> Self {
        Id(self.0.clone())
    }
}

impl<T: Copy> Copy for Id<T> {

}

} // verus!
