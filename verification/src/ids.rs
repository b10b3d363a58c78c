//! Fresh identifiers for decks and games: twelve ASCII letters drawn at
//! random.

use rand::seq::IteratorRandom;
use vstd::prelude::*;

verus! {

/// Relies on rand's `IteratorRandom::choose_multiple`: reservoir
/// sampling returns `min(n, pool.len())` elements, each drawn from the
/// pool.
#[verifier::external_body]
fn choose_bytes(pool: &Vec<u8>, n: usize) -> (r: Vec<u8>)
    ensures
        r@.len() == if n <= pool@.len() {
            n as int
        } else {
            pool@.len() as int
        },
        forall|i: int| 0 <= i < r@.len() ==> pool@.contains(r@[i]),
{
    pool.iter().cloned().choose_multiple(&mut rand::thread_rng(), n)
}

/// Relies on std's `String::push`: appends one character.
#[verifier::external_body]
fn push_char(s: &mut String, c: char)
    ensures
        final(s)@ == old(s)@.push(c),
{
    s.push(c);
}

/// A fresh twelve-character identifier of ASCII letters.
pub fn new_id() -> (r: String)
    ensures
        r@.len() == 12,
{
    let mut pool: Vec<u8> = Vec::new();
    let mut b: u8 = 65;
    while b < 91
        invariant
            65 <= b <= 91,
            pool@.len() == b - 65,
        decreases 91 - b,
    {
        pool.push(b);
        b = b + 1;
    }
    let mut b2: u8 = 97;
    while b2 < 123
        invariant
            97 <= b2 <= 123,
            pool@.len() == 26 + b2 - 97,
        decreases 123 - b2,
    {
        pool.push(b2);
        b2 = b2 + 1;
    }
    let picked = choose_bytes(&pool, 12);
    let mut id = String::new();
    let mut i: usize = 0;
    while i < picked.len()
        invariant
            i <= picked@.len(),
            picked@.len() == 12,
            id@.len() == i,
        decreases picked@.len() - i,
    {
        push_char(&mut id, picked[i] as char);
        i = i + 1;
    }
    id
}

} // verus!
