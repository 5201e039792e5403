//! A small pipeline over cricket batting records: parse delimited text lines
//! into records, keep the records whose surname starts with a fixed letter,
//! and sort the survivors by their run count, descending and stable.

pub mod num;
pub mod parse;
pub mod pipeline;
pub mod record;
pub mod sort;
pub mod text;

use vstd::prelude::*;

verus! {

/// Carves the two words of a fixed greeting out of one buffer, returning
/// owned copies of the two slices.
pub fn slices() -> (r: (String, String))
    ensures
        r.0@ == "hello"@,
        r.1@ == "world"@,
{
    let s = "hello world";
    proof {
        reveal_strlit("hello world");
        reveal_strlit("hello");
        reveal_strlit("world");
    }
    let hello = s.substring_char(0, 5);
    let world = s.substring_char(6, 11);
    proof {
        assert(hello@ =~= "hello"@);
        assert(world@ =~= "world"@);
    }
    (hello.to_owned(), world.to_owned())
}

} // verus!
