//! The fixed card pools a sweep draws its selections from.

use vstd::prelude::*;

verus! {

/// The card values of the standard pool: four big numbers and the
/// small numbers one to ten, twice each.
pub open spec fn default_cards() -> Seq<u8> {
    seq![
        100u8,
        75u8,
        50u8,
        25u8,
        10u8,
        10u8,
        9u8,
        9u8,
        8u8,
        8u8,
        7u8,
        7u8,
        6u8,
        6u8,
        5u8,
        5u8,
        4u8,
        4u8,
        3u8,
        3u8,
        2u8,
        2u8,
        1u8,
        1u8,
    ]
}

/// The card values used in special editions: four alternative big
/// numbers and the same small numbers.
pub open spec fn special_cards() -> Seq<u8> {
    seq![
        87u8,
        62u8,
        37u8,
        12u8,
        10u8,
        10u8,
        9u8,
        9u8,
        8u8,
        8u8,
        7u8,
        7u8,
        6u8,
        6u8,
        5u8,
        5u8,
        4u8,
        4u8,
        3u8,
        3u8,
        2u8,
        2u8,
        1u8,
        1u8,
    ]
}

/// Returns the standard set of cards.
pub fn get_default_cards() -> (r: Vec<u8>)
    ensures
        r@ == default_cards(),
{
    let mut r: Vec<u8> = Vec::new();
    r.push(100);
    r.push(75);
    r.push(50);
    r.push(25);
    push_smalls(&mut r);
    proof {
        assert(r@ =~= default_cards());
    }
    r
}

/// Returns the set of cards used in special editions of the game.
pub fn get_special_cards() -> (r: Vec<u8>)
    ensures
        r@ == special_cards(),
{
    let mut r: Vec<u8> = Vec::new();
    r.push(87);
    r.push(62);
    r.push(37);
    r.push(12);
    push_smalls(&mut r);
    proof {
        assert(r@ =~= special_cards());
    }
    r
}

/// Appends the small numbers ten down to one, twice each.
fn push_smalls(r: &mut Vec<u8>)
    ensures
        final(r)@ == old(r)@ + seq![
            10u8,
            10u8,
            9u8,
            9u8,
            8u8,
            8u8,
            7u8,
            7u8,
            6u8,
            6u8,
            5u8,
            5u8,
            4u8,
            4u8,
            3u8,
            3u8,
            2u8,
            2u8,
            1u8,
            1u8,
        ],
{
    let ghost r0 = r@;
    r.push(10);
    r.push(10);
    r.push(9);
    r.push(9);
    r.push(8);
    r.push(8);
    r.push(7);
    r.push(7);
    r.push(6);
    r.push(6);
    r.push(5);
    r.push(5);
    r.push(4);
    r.push(4);
    r.push(3);
    r.push(3);
    r.push(2);
    r.push(2);
    r.push(1);
    r.push(1);
    proof {
        assert(r@ =~= r0 + seq![
            10u8,
            10u8,
            9u8,
            9u8,
            8u8,
            8u8,
            7u8,
            7u8,
            6u8,
            6u8,
            5u8,
            5u8,
            4u8,
            4u8,
            3u8,
            3u8,
            2u8,
            2u8,
            1u8,
            1u8,
        ]);
    }
}

} // verus!
