//! The `ping` command: a fixed card that shows the bot is there.

use vstd::prelude::*;
use crate::card::{Card, CardField, CardFieldView, CardView, CommandSpec, CommandSpecView, colour_from_rgb, field, rgb};

verus! {

/// The card that answers `ping`.
pub open spec fn pong_card() -> CardView {
    CardView {
        title: "Pong!"@,
        description: "This is an embedded message in response to /ping."@,
        colour: rgb(0, 255, 0),
        fields: seq![
            CardFieldView { name: "Field 1"@, value: "Some interesting data"@, inline: true },
            CardFieldView { name: "Field 2"@, value: "More data here"@, inline: true },
        ],
        footer: None,
    }
}

/// The card that answers `ping`.
pub fn run() -> (c: Card)
    ensures
        c@ == pong_card(),
{
    let mut fields: Vec<CardField> = Vec::new();
    fields.push(field("Field 1", String::from_str("Some interesting data"), true));
    fields.push(field("Field 2", String::from_str("More data here"), true));
    let c = Card {
        title: String::from_str("Pong!"),
        description: String::from_str("This is an embedded message in response to /ping."),
        colour: colour_from_rgb(0, 255, 0),
        fields,
        footer: None,
    };
    assert(c@.fields =~= pong_card().fields);
    c
}

/// The `ping` slash command.
pub fn register() -> (c: CommandSpec)
    ensures
        c@ == (CommandSpecView { name: "ping"@, description: "A ping command"@ }),
{
    CommandSpec { name: String::from_str("ping"), description: String::from_str("A ping command") }
}

} // verus!
