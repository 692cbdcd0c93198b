use vstd::prelude::*;

verus! {

/// A fighter of a bout network, known by name.
#[derive(Debug)]
pub struct Fighter {
    pub name: String,
}

impl Fighter {
    /// A fighter called `name`.
    pub fn new(name: &str) -> (r: Self)
        ensures
            r.name@ == name@,
    {
        Fighter { name: name.to_owned() }
    }
}

/// The longer of two strings by byte length; `y` on a tie.
pub fn longest<'a>(x: &'a str, y: &'a str) -> (r: &'a str)
    ensures
        r@ == if x.len() > y.len() { x@ } else { y@ },
{
    if x.len() > y.len() {
        x
    } else {
        y
    }
}

} // verus!
