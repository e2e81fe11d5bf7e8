//! Small functions over values, references and boxes.
use vstd::prelude::*;

verus! {

pub fn five() -> (r: i32)
    ensures
        r == 5,
{
    5
}

pub fn plus_one(x: i32) -> (r: i32)
    requires
        x < i32::MAX,
    ensures
        r == x + 1,
{
    x + 1
}

/// A shared borrow whose last use comes before the owner is written again.
pub fn lifetime_example() {
    let mut x: i32 = 1;
    let y = &x;
    let z: i32 = *y;
    x += z;
    assert(x == 2);
}

/// Moving a box moves the pointer, not the million elements behind it.
pub fn boxed() {
    let a = Box::new([0i32; 1_000_000]);
    let b = a;
    assert(b[0] == 0);
}

/// The ASCII upper-case letter of a lower-case one; any other character
/// is its own.
pub open spec fn ascii_upper(c: char) -> char {
    if 'a' <= c <= 'z' {
        ((c as u32) - 32) as char
    } else {
        c
    }
}

/// Capitalizes the first character when it is an ASCII lower-case letter.
/// Returns whether it did; the other characters stay as they are.
pub fn ascii_capitalize(v: &mut Vec<char>) -> (changed: bool)
    requires
        old(v).len() > 0,
    ensures
        changed == ('a' <= old(v)@[0] <= 'z'),
        final(v)@ == old(v)@.update(0, ascii_upper(old(v)@[0])),
{
    let c = v[0];
    if 'a' <= c && c <= 'z' {
        let up = ((c as u8) - 32) as char;
        v.set(0, up);
        true
    } else {
        proof {
            assert(v@ =~= v@.update(0, c));
        }
        false
    }
}

} // verus!
