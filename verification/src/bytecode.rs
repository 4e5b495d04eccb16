//! First-character extraction from string slices, whether the text is a
//! constant, a local value, a mutable local, or handed in from outside.
use vstd::prelude::*;

verus! {

/// The first character of a greeting held as a literal.
pub fn constant_str() -> (c: char)
    ensures
        c == 'H',
{
    let hi: &str = "Hello, World!";
    proof {
        reveal_strlit("Hello, World!");
    }
    hi.get_char(0)
}

/// The first character of a greeting held in an immutable binding.
pub fn value_str() -> (c: char)
    ensures
        c == 'H',
{
    let hi: &str = "Hello, World!";
    proof {
        reveal_strlit("Hello, World!");
    }
    hi.get_char(0)
}

/// The first character of a greeting held in a mutable binding.
pub fn variable_str() -> (c: char)
    ensures
        c == 'H',
{
    let mut hi: &str = "Hello, World!";
    proof {
        reveal_strlit("Hello, World!");
    }
    hi.get_char(0)
}

/// The first character of a string handed in from outside.
pub fn external_string(hi: &str) -> (c: char)
    requires
        hi@.len() > 0,
    ensures
        c == hi@[0],
{
    hi.get_char(0)
}

} // verus!
