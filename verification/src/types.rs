use vstd::prelude::*;

verus! {

/// A rectangle clipped to a view, as `(x0, x1, y0, y1)`: columns `x0 .. x1`
/// and rows `y0 .. y1`, in the view's coordinates.
pub type NormalRect = (isize, isize, isize, isize);

} // verus!
