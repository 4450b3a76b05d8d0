use vstd::prelude::*;

verus! {

/// Relies on rand::random: draws a value of the type from the thread-local
/// generator. The result depends on chance, so nothing is promised of it.
pub assume_specification<T>[ rand::random::<T> ]() -> (r: T)
    where
        rand::distributions::Standard: rand::distributions::Distribution<T>,
;

/// Draws a random index below `n`, as the spawner needs for picking a shape
/// and a color.
pub fn random_below(n: usize) -> (r: usize)
    requires
        1 <= n,
    ensures
        r < n,
{
    let raw: usize = rand::random::<usize>();
    raw % n
}

} // verus!
