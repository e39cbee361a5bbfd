//! How a node of a route is drawn.
use vstd::prelude::*;

use crate::network::VehicleNode;

verus! {

/// The colour of the marker drawn on a node of a route.
#[derive(Clone, Copy, PartialEq, Eq, Structural, Debug)]
pub enum MarkerColor {
    Yellow,
    White,
    Orange,
    Red,
}

/// The colour for a node's attributes: yellow without a `Speed`
/// attribute, white for speed `0`, orange for speed `2`, red for any other.
pub open spec fn speed_color(attrs: Map<Seq<char>, Seq<char>>) -> MarkerColor {
    if !attrs.contains_key("Speed"@) {
        MarkerColor::Yellow
    } else if attrs["Speed"@] == "0"@ {
        MarkerColor::White
    } else if attrs["Speed"@] == "2"@ {
        MarkerColor::Orange
    } else {
        MarkerColor::Red
    }
}

/// Which colour goes with which speed: yellow exactly where there is no
/// `Speed` attribute, white exactly for speed `0`, orange exactly for speed
/// `2`, and red for every other speed.
pub proof fn lemma_marker_colors(attrs: Map<Seq<char>, Seq<char>>)
    ensures
        (speed_color(attrs) == MarkerColor::Yellow) <==> !attrs.contains_key("Speed"@),
        (speed_color(attrs) == MarkerColor::White) <==> attrs.contains_key("Speed"@) && attrs["Speed"@]
            == "0"@,
        (speed_color(attrs) == MarkerColor::Orange) <==> attrs.contains_key("Speed"@) && attrs["Speed"@]
            == "2"@,
        (speed_color(attrs) == MarkerColor::Red) <==> attrs.contains_key("Speed"@) && attrs["Speed"@]
            != "0"@ && attrs["Speed"@] != "2"@,
{
    reveal_strlit("0");
    reveal_strlit("2");
    assert("0"@[0] != "2"@[0]);
}

/// The colour of the marker for `node`.
pub fn marker_color(node: &VehicleNode) -> (c: MarkerColor)
    ensures
        c == speed_color(node@.attributes),
        (c == MarkerColor::Yellow) <==> !node@.attributes.contains_key("Speed"@),
        (c == MarkerColor::White) <==> node@.attributes.contains_key("Speed"@)
            && node@.attributes["Speed"@] == "0"@,
        (c == MarkerColor::Orange) <==> node@.attributes.contains_key("Speed"@)
            && node@.attributes["Speed"@] == "2"@,
        (c == MarkerColor::Red) <==> node@.attributes.contains_key("Speed"@)
            && node@.attributes["Speed"@] != "0"@ && node@.attributes["Speed"@] != "2"@,
{
    proof {
        lemma_marker_colors(node@.attributes);
    }
    match node.attributes.get("Speed") {
        None => MarkerColor::Yellow,
        Some(speed) => {
            let stopped = "0".to_owned();
            let slow = "2".to_owned();
            if *speed == stopped {
                MarkerColor::White
            } else if *speed == slow {
                MarkerColor::Orange
            } else {
                MarkerColor::Red
            }
        },
    }
}

} // verus!
