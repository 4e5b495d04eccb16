//! Resistor color bands and their numeric values.
use vstd::prelude::*;

verus! {

#[derive(Clone, Copy, PartialEq, Eq, Structural, Debug)]
pub enum ResistorColor {
    Black,
    Brown,
    Red,
    Orange,
    Yellow,
    Green,
    Blue,
    Violet,
    Grey,
    White,
}

/// The numeric value of each band color, black 0 through white 9.
pub open spec fn color_value(c: ResistorColor) -> u32 {
    match c {
        ResistorColor::Black => 0,
        ResistorColor::Brown => 1,
        ResistorColor::Red => 2,
        ResistorColor::Orange => 3,
        ResistorColor::Yellow => 4,
        ResistorColor::Green => 5,
        ResistorColor::Blue => 6,
        ResistorColor::Violet => 7,
        ResistorColor::Grey => 8,
        ResistorColor::White => 9,
    }
}

/// The band color of a value, for values 0 through 9.
pub open spec fn color_of_value(value: u32) -> Option<ResistorColor> {
    if value == 0 {
        Some(ResistorColor::Black)
    } else if value == 1 {
        Some(ResistorColor::Brown)
    } else if value == 2 {
        Some(ResistorColor::Red)
    } else if value == 3 {
        Some(ResistorColor::Orange)
    } else if value == 4 {
        Some(ResistorColor::Yellow)
    } else if value == 5 {
        Some(ResistorColor::Green)
    } else if value == 6 {
        Some(ResistorColor::Blue)
    } else if value == 7 {
        Some(ResistorColor::Violet)
    } else if value == 8 {
        Some(ResistorColor::Grey)
    } else if value == 9 {
        Some(ResistorColor::White)
    } else {
        None
    }
}

/// The name of a band color.
pub open spec fn color_name(c: ResistorColor) -> Seq<char> {
    match c {
        ResistorColor::Black => "Black"@,
        ResistorColor::Brown => "Brown"@,
        ResistorColor::Red => "Red"@,
        ResistorColor::Orange => "Orange"@,
        ResistorColor::Yellow => "Yellow"@,
        ResistorColor::Green => "Green"@,
        ResistorColor::Blue => "Blue"@,
        ResistorColor::Violet => "Violet"@,
        ResistorColor::Grey => "Grey"@,
        ResistorColor::White => "White"@,
    }
}

pub fn color_to_value(_color: ResistorColor) -> (r: u32)
    ensures
        r == color_value(_color),
{
    match _color {
        ResistorColor::Black => 0,
        ResistorColor::Brown => 1,
        ResistorColor::Red => 2,
        ResistorColor::Orange => 3,
        ResistorColor::Yellow => 4,
        ResistorColor::Green => 5,
        ResistorColor::Blue => 6,
        ResistorColor::Violet => 7,
        ResistorColor::Grey => 8,
        ResistorColor::White => 9,
    }
}

/// The name of the color with the given value, or `value out of range` for
/// anything above 9.
pub fn value_to_color_string(value: u32) -> (r: String)
    ensures
        value <= 9 ==> r@ == color_name(color_of_value(value)->Some_0),
        value > 9 ==> r@ == "value out of range"@,
{
    match value {
        0 => String::from_str("Black"),
        1 => String::from_str("Brown"),
        2 => String::from_str("Red"),
        3 => String::from_str("Orange"),
        4 => String::from_str("Yellow"),
        5 => String::from_str("Green"),
        6 => String::from_str("Blue"),
        7 => String::from_str("Violet"),
        8 => String::from_str("Grey"),
        9 => String::from_str("White"),
        _ => String::from_str("value out of range"),
    }
}

/// Every band color, in value order.
pub fn colors() -> (r: Vec<ResistorColor>)
    ensures
        r@.len() == 10,
        forall|i: int| 0 <= i < 10 ==> color_value(#[trigger] r@[i]) == i,
{
    let mut r: Vec<ResistorColor> = Vec::new();
    r.push(ResistorColor::Black);
    r.push(ResistorColor::Brown);
    r.push(ResistorColor::Red);
    r.push(ResistorColor::Orange);
    r.push(ResistorColor::Yellow);
    r.push(ResistorColor::Green);
    r.push(ResistorColor::Blue);
    r.push(ResistorColor::Violet);
    r.push(ResistorColor::Grey);
    r.push(ResistorColor::White);
    r
}

} // verus!
