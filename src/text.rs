use vstd::prelude::*;
use vstd::string::StringSliceAdditionalSpecFns;
use vstd::utf8::is_char_boundary;

verus! {

/// Returns whichever of `x` and `y` is longer in bytes; on a tie, `y`.
pub fn longest<'a>(x: &'a str, y: &'a str) -> (r: &'a str)
    ensures
        r@ == (if x.len() > y.len() { x@ } else { y@ }),
{
    if x.len() > y.len() {
        x
    } else {
        y
    }
}

/// Like `longest`, where `y` lives for the whole program: the result borrows for
/// the shorter of the two lifetimes.
pub fn longest_static<'a>(x: &'a str, y: &'static str) -> (r: &'a str)
    ensures
        r@ == (if x.len() > y.len() { x@ } else { y@ }),
{
    if x.len() > y.len() {
        x
    } else {
        y
    }
}

/// Returns the first byte of `s` as a string slice; that byte must be a whole
/// character.
pub fn first_word(s: &str) -> (r: &str)
    requires
        is_char_boundary(s.spec_bytes(), 1),
    ensures
        r.spec_bytes() == s.spec_bytes().subrange(0, 1),
{
    s.split_at(1).0
}

/// Returns a closure that doubles its argument; it accepts every argument whose
/// double fits in an `i32`.
pub fn returns_closure() -> (f: impl Fn(i32) -> i32)
    ensures
        forall|x: i32| i32::MIN <= 2 * x <= i32::MAX ==> #[trigger] f.requires((x,)),
        forall|x: i32, y: i32| f.ensures((x,), y) ==> y == 2 * x,
{
    |x: i32| -> (y: i32)
        requires
            i32::MIN <= 2 * x <= i32::MAX,
        ensures
            y == 2 * x,
        { x * 2 }
}

} // verus!
