use vstd::prelude::*;

verus! {

/// Sound played when a pill is eaten.
pub const CHOMP: usize = 0;
/// Sound played when a ghost catches the player.
pub const DEAD: usize = 1;
/// Sound played when the player catches a ghost.
pub const GOTGHOST: usize = 4;

/// Where a sound is in its life: playing, just reached its end, or paused
/// after its end.
#[derive(Clone, Copy, Debug, PartialEq, Eq, Structural)]
pub enum Playing {
    Playing,
    Ended,
    Finished,
}

/// The sample a sound device plays at position `pos` of `data`: the byte
/// there, or silence (128, the middle of unsigned 8-bit audio) past the end.
pub fn sample_at(data: &Vec<u8>, pos: usize) -> (b: u8)
    ensures
        b == if pos < data@.len() { data@[pos as int] } else { 128u8 },
{
    if pos < data.len() {
        data[pos]
    } else {
        128
    }
}

/// The state and play position after one sample has been written out: a
/// playing sound moves one sample on, and at `end` it is marked ended and
/// rewound; a sound in any other state stays where it is.
pub fn after_sample(status: Playing, pos: usize, end: usize) -> (r: (Playing, usize))
    requires
        status == Playing::Playing ==> pos < usize::MAX,
    ensures
        r == if status == Playing::Playing {
            if pos + 1 >= end { (Playing::Ended, 0usize) } else { (Playing::Playing, (pos + 1) as usize) }
        } else {
            (status, pos)
        },
{
    match status {
        Playing::Playing => {
            let next = pos + 1;
            if next >= end {
                (Playing::Ended, 0)
            } else {
                (Playing::Playing, next)
            }
        },
        _ => (status, pos),
    }
}

/// The housekeeping pass over a sound: one that has just ended is to be
/// paused (the `bool`) and becomes finished; any other is left alone.
pub fn after_pause_check(status: Playing) -> (r: (Playing, bool))
    ensures
        r == if status == Playing::Ended { (Playing::Finished, true) } else { (status, false) },
{
    match status {
        Playing::Ended => (Playing::Finished, true),
        _ => (status, false),
    }
}

/// How many samples of a clip of `len` samples are played when the last
/// `offend` are cut off.
pub fn playable_len(len: usize, offend: usize) -> (n: usize)
    requires
        offend <= len,
    ensures
        n == len - offend,
{
    len - offend
}

} // verus!
