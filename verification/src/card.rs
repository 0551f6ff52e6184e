//! Message cards and slash commands as plain values: what the bot shows
//! and registers, before it is handed to the chat service.

use vstd::prelude::*;

verus! {

/// One titled field of a card.
#[derive(Debug)]
pub struct CardField {
    pub name: String,
    pub value: String,
    pub inline: bool,
}

/// A message card: title, text, colour, fields and an optional footer.
#[derive(Debug)]
pub struct Card {
    pub title: String,
    pub description: String,
    pub colour: u32,
    pub fields: Vec<CardField>,
    pub footer: Option<String>,
}

/// A slash command: its name and the description shown for it.
#[derive(Debug)]
pub struct CommandSpec {
    pub name: String,
    pub description: String,
}

/// The mathematical value of a card field.
pub struct CardFieldView {
    pub name: Seq<char>,
    pub value: Seq<char>,
    pub inline: bool,
}

/// The mathematical value of a card.
pub struct CardView {
    pub title: Seq<char>,
    pub description: Seq<char>,
    pub colour: u32,
    pub fields: Seq<CardFieldView>,
    pub footer: Option<Seq<char>>,
}

/// The mathematical value of a slash command.
pub struct CommandSpecView {
    pub name: Seq<char>,
    pub description: Seq<char>,
}

impl View for CardField {
    type V = CardFieldView;

    open spec fn view(&self) -> CardFieldView {
        CardFieldView { name: self.name@, value: self.value@, inline: self.inline }
    }
}

/// The view of an optional string.
pub open spec fn option_view(o: Option<String>) -> Option<Seq<char>> {
    match o {
        Some(s) => Some(s@),
        None => None,
    }
}

impl View for Card {
    type V = CardView;

    open spec fn view(&self) -> CardView {
        CardView {
            title: self.title@,
            description: self.description@,
            colour: self.colour,
            fields: self.fields@.map_values(|f: CardField| f@),
            footer: option_view(self.footer),
        }
    }
}

impl View for CommandSpec {
    type V = CommandSpecView;

    open spec fn view(&self) -> CommandSpecView {
        CommandSpecView { name: self.name@, description: self.description@ }
    }
}

/// The views of a list of cards.
pub open spec fn card_views(s: Seq<Card>) -> Seq<CardView> {
    s.map_values(|c: Card| c@)
}

/// The colour value of red, green and blue components: `0xRRGGBB`.
pub open spec fn rgb(red: u8, green: u8, blue: u8) -> u32 {
    (red * 65536 + green * 256 + blue) as u32
}

/// The colour with the given red, green and blue components, packed as the
/// chat service's `Colour::from_rgb` packs it.
pub fn colour_from_rgb(red: u8, green: u8, blue: u8) -> (c: u32)
    ensures
        c == rgb(red, green, blue),
{
    let r = red as u32;
    let g = green as u32;
    let b = blue as u32;
    assert((r << 16u32) | (g << 8u32) | b == r * 65536 + g * 256 + b) by (bit_vector)
        requires
            r < 256,
            g < 256,
            b < 256,
    ;
    (r << 16u32) | (g << 8u32) | b
}

/// A field of a card.
pub fn field(name: &str, value: String, inline: bool) -> (f: CardField)
    ensures
        f@ == (CardFieldView { name: name@, value: value@, inline }),
{
    CardField { name: String::from_str(name), value, inline }
}

} // verus!
