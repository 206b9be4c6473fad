//! The colour in which charts draw a process.
use vstd::prelude::*;
use crate::names::str_eq;

verus! {

/// The colour of the process named `name`, as red, green and blue: one
/// colour for each of the names `A` to `I`, grey for every other name.
pub open spec fn color_of(name: Seq<char>) -> (u8, u8, u8) {
    if name == "A"@ {
        (76, 120, 168)
    } else if name == "B"@ {
        (245, 133, 24)
    } else if name == "C"@ {
        (84, 162, 75)
    } else if name == "D"@ {
        (228, 87, 86)
    } else if name == "E"@ {
        (114, 183, 178)
    } else if name == "F"@ {
        (178, 121, 162)
    } else if name == "G"@ {
        (255, 157, 166)
    } else if name == "H"@ {
        (157, 117, 93)
    } else if name == "I"@ {
        (186, 176, 172)
    } else {
        (107, 114, 128)
    }
}

/// The colour in which charts draw the process named `name`.
pub fn process_color_rgb(name: &str) -> (r: (u8, u8, u8))
    ensures
        r == color_of(name@),
{
    if str_eq(name, "A") {
        (76, 120, 168)
    } else if str_eq(name, "B") {
        (245, 133, 24)
    } else if str_eq(name, "C") {
        (84, 162, 75)
    } else if str_eq(name, "D") {
        (228, 87, 86)
    } else if str_eq(name, "E") {
        (114, 183, 178)
    } else if str_eq(name, "F") {
        (178, 121, 162)
    } else if str_eq(name, "G") {
        (255, 157, 166)
    } else if str_eq(name, "H") {
        (157, 117, 93)
    } else if str_eq(name, "I") {
        (186, 176, 172)
    } else {
        (107, 114, 128)
    }
}

} // verus!
