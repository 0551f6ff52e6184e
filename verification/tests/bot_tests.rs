use fmad::bluetooth_daemon::{port_name, read_serial_chunk, SerialReading, BAUD_RATE};
use fmad::card::{colour_from_rgb, Card};
use fmad::commands::{all_commands, command_named, fmad as fmad_command, ping, BotCommand};
use fmad::init::Recipe;
use fmad::types::{EmbedNavigator, ReactionOutcome};

fn strings(items: &[&str]) -> Vec<String> {
    items.iter().map(|s| s.to_string()).collect()
}

fn recipe(name: &str, instructions: &str, ingredients: &[&str]) -> Recipe {
    Recipe {
        recipe: name.to_string(),
        instructions: instructions.to_string(),
        ingredients: strings(ingredients),
    }
}

#[test]
fn colour_packs_components() {
    assert_eq!(colour_from_rgb(255, 0, 0), 0xFF0000);
    assert_eq!(colour_from_rgb(0, 255, 0), 0x00FF00);
    assert_eq!(colour_from_rgb(0, 0, 255), 0x0000FF);
    assert_eq!(colour_from_rgb(245, 239, 66), 0xF5EF42);
}

#[test]
fn ping_card_is_fixed() {
    let c = ping::run();
    assert_eq!(c.title, "Pong!");
    assert_eq!(c.description, "This is an embedded message in response to /ping.");
    assert_eq!(c.colour, 0x00FF00);
    assert_eq!(c.fields.len(), 2);
    assert_eq!(c.fields[0].name, "Field 1");
    assert_eq!(c.fields[0].value, "Some interesting data");
    assert!(c.fields[0].inline);
    assert_eq!(c.fields[1].name, "Field 2");
    assert_eq!(c.fields[1].value, "More data here");
    assert!(c.fields[1].inline);
    assert!(c.footer.is_none());
}

#[test]
fn commands_are_registered_in_order() {
    let v = all_commands();
    assert_eq!(v.len(), 2);
    assert_eq!(v[0].name, "ping");
    assert_eq!(v[0].description, "A ping command");
    assert_eq!(v[1].name, "fmad");
    assert_eq!(v[1].description, "Find me a dish pwetty pweeeezz 🥺");
    assert_eq!(fmad_command::register().name, "fmad");
    assert_eq!(ping::register().name, "ping");
}

#[test]
fn command_names_are_recognised() {
    assert_eq!(command_named("ping"), Some(BotCommand::Ping));
    assert_eq!(command_named("fmad"), Some(BotCommand::Fmad));
    assert_eq!(command_named("Ping"), None);
    assert_eq!(command_named(""), None);
}

fn field<'a>(c: &'a Card, i: usize) -> (&'a str, &'a str, bool) {
    (c.fields[i].name.as_str(), c.fields[i].value.as_str(), c.fields[i].inline)
}

#[test]
fn recipe_cards_come_best_first() {
    let cards = fmad_command::run(
        strings(&["egg", "milk", "bread"]),
        vec![
            recipe("Salad", "Toss.", &["lettuce", "tomato"]),
            recipe("Pancakes", "Fry.", &["egg", "milk", "flour", "egg"]),
            recipe("Toast", "Toast.", &["bread", "butter"]),
        ],
    );
    assert_eq!(cards.len(), 3);
    let names: Vec<&str> = cards.iter().map(|c| c.description.as_str()).collect();
    assert_eq!(names, vec!["Pancakes", "Toast", "Salad"]);

    let c = &cards[0];
    assert_eq!(c.title, "Recipe Card");
    assert_eq!(c.colour, 0xF5EF42);
    assert_eq!(c.fields.len(), 3);
    assert_eq!(field(c, 0), ("Number of Available Ingredients", "2/4", false));
    assert_eq!(field(c, 1), ("Recipe Ingredients", "**egg**, **milk**, flour", false));
    assert_eq!(field(c, 2), ("Recipe Instruction", "Fry.", false));
    assert_eq!(c.footer.as_deref(), Some("Page 1/3\n Click on 👈 👉 to navigate\n"));

    assert_eq!(field(&cards[1], 0), ("Number of Available Ingredients", "1/2", false));
    assert_eq!(field(&cards[1], 1), ("Recipe Ingredients", "**bread**, butter", false));
    assert_eq!(cards[1].footer.as_deref(), Some("Page 2/3\n Click on 👈 👉 to navigate\n"));

    assert_eq!(field(&cards[2], 0), ("Number of Available Ingredients", "0/2", false));
    assert_eq!(field(&cards[2], 1), ("Recipe Ingredients", "lettuce, tomato", false));
    assert_eq!(cards[2].footer.as_deref(), Some("Page 3/3\n Click on 👈 👉 to navigate\n"));
}

#[test]
fn repeated_ingredients_at_hand_show_once() {
    let cards = fmad_command::run(
        strings(&["milk", "egg", "milk"]),
        vec![recipe("Pancakes", "Fry.", &["egg", "milk"])],
    );
    assert_eq!(field(&cards[0], 0).1, "3/2");
    assert_eq!(field(&cards[0], 1).1, "**milk**, **egg**");
}

#[test]
fn no_recipes_give_no_cards() {
    assert!(fmad_command::run(strings(&["egg"]), vec![]).is_empty());
}

fn one_card(title: &str) -> Card {
    Card {
        title: title.to_string(),
        description: String::new(),
        colour: 0,
        fields: vec![],
        footer: None,
    }
}

#[test]
fn left_arrow_after_posting_shows_first_card() {
    let mut nav: EmbedNavigator<Card> = EmbedNavigator::new();
    nav.track(7, vec![one_card("a"), one_card("b")]);
    assert_eq!(nav.on_reaction(7, false, "👈"), ReactionOutcome::Show(0));
    assert_eq!(nav.card(7, 0).unwrap().title, "a");
}

#[test]
fn right_arrow_after_posting_shows_second_card() {
    let mut nav: EmbedNavigator<Card> = EmbedNavigator::new();
    nav.track(7, vec![one_card("a"), one_card("b")]);
    assert_eq!(nav.on_reaction(7, false, "👉"), ReactionOutcome::Show(1));
    assert_eq!(nav.card(7, 1).unwrap().title, "b");
    // The index kept for the message stays where it was.
    assert_eq!(nav.on_reaction(7, false, "👉"), ReactionOutcome::Show(1));
    assert_eq!(nav.embed_index.get(&7), Some(&0));
}

#[test]
fn right_arrow_on_a_single_card_lies_past_the_cards() {
    let mut nav: EmbedNavigator<Card> = EmbedNavigator::new();
    nav.track(7, vec![one_card("a")]);
    assert_eq!(nav.on_reaction(7, false, "👉"), ReactionOutcome::OutOfRange(1));
    assert!(nav.card(7, 1).is_none());
}

#[test]
fn bot_reactions_and_other_emoji_are_ignored() {
    let mut nav: EmbedNavigator<Card> = EmbedNavigator::new();
    nav.track(7, vec![one_card("a")]);
    assert_eq!(nav.on_reaction(7, true, "👈"), ReactionOutcome::Ignored);
    assert_eq!(nav.on_reaction(7, false, "🍕"), ReactionOutcome::Ignored);
    assert_eq!(nav.on_reaction(9, true, "👈"), ReactionOutcome::Ignored);
    assert!(nav.embed_index.get(&9).is_none());
}

#[test]
fn reaction_on_an_unknown_message_starts_its_index() {
    let mut nav: EmbedNavigator<Card> = EmbedNavigator::new();
    assert_eq!(nav.on_reaction(3, false, "👈"), ReactionOutcome::Unknown);
    assert_eq!(nav.embed_index.get(&3), Some(&0));
    assert!(nav.embeds.is_empty());
    let mut other: EmbedNavigator<Card> = EmbedNavigator::new();
    assert_eq!(other.on_reaction(4, false, "x"), ReactionOutcome::Ignored);
    assert_eq!(other.embed_index.get(&4), Some(&0));
}

#[test]
fn serial_open_signal_is_recognised() {
    match read_serial_chunk(b"  OPEN!\r\n") {
        SerialReading::Text { text, fridge_open } => {
            assert_eq!(text, "OPEN!");
            assert!(fridge_open);
        }
        SerialReading::NotText => panic!("expected text"),
    }
}

#[test]
fn serial_other_text_is_not_the_signal() {
    match read_serial_chunk("CLOSED é".as_bytes()) {
        SerialReading::Text { text, fridge_open } => {
            assert_eq!(text, "CLOSED é");
            assert!(!fridge_open);
        }
        SerialReading::NotText => panic!("expected text"),
    }
    match read_serial_chunk(b"open!") {
        SerialReading::Text { fridge_open, .. } => assert!(!fridge_open),
        SerialReading::NotText => panic!("expected text"),
    }
}

#[test]
fn serial_bytes_that_are_not_utf8_are_not_text() {
    assert!(matches!(read_serial_chunk(&[0x4f, 0xff, 0x50]), SerialReading::NotText));
}

#[test]
fn serial_settings() {
    assert_eq!(port_name(), "/dev/rfcomm0");
    assert_eq!(BAUD_RATE, 112500);
}
