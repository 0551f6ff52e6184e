//! Page navigation of posted recipe cards: which card each message shows,
//! and how a reaction moves it.

use vstd::prelude::*;
use crate::text::same_text;

verus! {

broadcast use vstd::std_specs::hash::group_hash_axioms;

/// The cards posted under each message, and the page index kept for it.
/// Messages are known by their numeric id; `E` is the card type.
pub struct EmbedNavigator<E> {
    pub embed_index: std::collections::HashMap<u64, usize>,
    pub embeds: std::collections::HashMap<u64, Vec<E>>,
}

/// What a reaction on a message calls for.
#[derive(Debug, PartialEq, Eq, Structural)]
pub enum ReactionOutcome {
    /// Nothing: the reaction is the bot's own, or not a page arrow.
    Ignored,
    /// No cards are kept for the message.
    Unknown,
    /// Show the card at this index of the message's cards.
    Show(usize),
    /// The page index lies past the message's cards.
    OutOfRange(usize),
}

/// The page index after an arrow reaction, or `None` for any other reaction.
/// The right arrow moves on while the index is at most `max_index`; the left
/// arrow moves back while it is above 0.
pub open spec fn next_index(current: nat, max_index: nat, emoji: Seq<char>) -> Option<nat> {
    if emoji == "👉"@ {
        Some(if current <= max_index { current + 1 } else { current })
    } else if emoji == "👈"@ {
        Some(if current > 0 { (current - 1) as nat } else { current })
    } else {
        None
    }
}

/// The page index kept for a message: 0 where none is kept.
pub open spec fn kept_index(index: Map<u64, usize>, message_id: u64) -> nat {
    if index.contains_key(message_id) {
        index[message_id] as nat
    } else {
        0
    }
}

/// What a reaction on `message_id` calls for. The highest page index allowed
/// is one less than the number of messages with cards, and at least 0.
pub open spec fn reaction_outcome<E>(
    index: Map<u64, usize>,
    embeds: Map<u64, Vec<E>>,
    message_id: u64,
    from_bot: bool,
    emoji: Seq<char>,
) -> ReactionOutcome {
    let max_index: nat = if embeds.len() > 0 { (embeds.len() - 1) as nat } else { 0 };
    if from_bot {
        ReactionOutcome::Ignored
    } else {
        match next_index(kept_index(index, message_id), max_index, emoji) {
            None => ReactionOutcome::Ignored,
            Some(k) => if !embeds.contains_key(message_id) {
                ReactionOutcome::Unknown
            } else if k < embeds[message_id].len() {
                ReactionOutcome::Show(k as usize)
            } else {
                ReactionOutcome::OutOfRange(k as usize)
            },
        }
    }
}

/// The page indices after a reaction: a message first reacted to gets index
/// 0; no index changes otherwise.
pub open spec fn index_after_reaction(index: Map<u64, usize>, message_id: u64, from_bot: bool) -> Map<
    u64,
    usize,
> {
    if from_bot || index.contains_key(message_id) {
        index
    } else {
        index.insert(message_id, 0)
    }
}

/// Law: a reaction never changes a kept page index; at most it starts one
/// at 0 for a message reacted to for the first time.
pub proof fn law_reaction_keeps_page_indices(
    index: Map<u64, usize>,
    message_id: u64,
    from_bot: bool,
)
    ensures
        forall|id: u64|
            #[trigger] index.contains_key(id) ==> index_after_reaction(
                index,
                message_id,
                from_bot,
            ).contains_key(id) && index_after_reaction(index, message_id, from_bot)[id] == index[id],
        forall|id: u64|
            #[trigger] index_after_reaction(index, message_id, from_bot).contains_key(id)
                ==> index.contains_key(id) || id == message_id,
{
}

/// Law: right after a message is posted with its cards, the left arrow shows
/// its first card, and the right arrow asks for its second card, which lies
/// past the cards when there is only one.
pub proof fn law_arrows_after_posting<E>(
    index: Map<u64, usize>,
    embeds: Map<u64, Vec<E>>,
    message_id: u64,
    cards: Vec<E>,
)
    requires
        cards.len() > 0,
        embeds.dom().finite(),
    ensures
        reaction_outcome(
            index.insert(message_id, 0),
            embeds.insert(message_id, cards),
            message_id,
            false,
            "👈"@,
        ) == ReactionOutcome::Show(0),
        reaction_outcome(
            index.insert(message_id, 0),
            embeds.insert(message_id, cards),
            message_id,
            false,
            "👉"@,
        ) == (if cards.len() >= 2 {
            ReactionOutcome::Show(1)
        } else {
            ReactionOutcome::OutOfRange(1)
        }),
{
    reveal_strlit("👈");
    reveal_strlit("👉");
    assert("👈"@ != "👉"@) by {
        assert("👈"@[0] != "👉"@[0]);
    }
    let e = embeds.insert(message_id, cards);
    assert(e.dom() =~= embeds.dom().insert(message_id));
    assert(e.contains_key(message_id));
    assert(e.len() > 0) by {
        assert(e.dom().contains(message_id));
        vstd::set_lib::lemma_set_empty_equivalency_len(e.dom());
    }
}

impl<E> EmbedNavigator<E> {
    /// A navigator that keeps nothing.
    pub fn new() -> (n: Self)
        ensures
            n.embed_index@ == Map::<u64, usize>::empty(),
            n.embeds@ == Map::<u64, Vec<E>>::empty(),
    {
        EmbedNavigator {
            embed_index: std::collections::HashMap::new(),
            embeds: std::collections::HashMap::new(),
        }
    }

    /// Keeps `cards` as the pages of a newly posted message, at index 0.
    pub fn track(&mut self, message_id: u64, cards: Vec<E>)
        ensures
            final(self).embed_index@ == old(self).embed_index@.insert(message_id, 0),
            final(self).embeds@ == old(self).embeds@.insert(message_id, cards),
    {
        self.embed_index.insert(message_id, 0);
        self.embeds.insert(message_id, cards);
    }

    /// Handles a reaction on a message: the bot's own reactions and
    /// reactions other than the page arrows call for nothing; an arrow moves
    /// from the kept page index and calls for the card there.
    pub fn on_reaction(&mut self, message_id: u64, from_bot: bool, emoji: &str) -> (r:
        ReactionOutcome)
        ensures
            r == reaction_outcome(
                old(self).embed_index@,
                old(self).embeds@,
                message_id,
                from_bot,
                emoji@,
            ),
            final(self).embed_index@ == index_after_reaction(
                old(self).embed_index@,
                message_id,
                from_bot,
            ),
            final(self).embeds@ == old(self).embeds@,
    {
        if from_bot {
            return ReactionOutcome::Ignored;
        }
        let current: usize = match self.embed_index.get(&message_id) {
            Some(i) => *i,
            None => {
                self.embed_index.insert(message_id, 0);
                0
            },
        };
        let n = self.embeds.len();
        let max_index: usize = if n > 0 { n - 1 } else { 0 };
        let next: usize;
        if same_text(emoji, "👉") {
            next = if current <= max_index { current + 1 } else { current };
        } else if same_text(emoji, "👈") {
            next = if current > 0 { current - 1 } else { current };
        } else {
            return ReactionOutcome::Ignored;
        }
        match self.embeds.get(&message_id) {
            Some(cards) => {
                if next < cards.len() {
                    ReactionOutcome::Show(next)
                } else {
                    ReactionOutcome::OutOfRange(next)
                }
            },
            None => ReactionOutcome::Unknown,
        }
    }

    /// The card at `index` of the cards kept for `message_id`, if any.
    pub fn card(&self, message_id: u64, index: usize) -> (c: Option<&E>)
        ensures
            c == (if self.embeds@.contains_key(message_id) && index < self.embeds@[message_id].len() {
                Some(&self.embeds@[message_id]@[index as int])
            } else {
                None
            }),
    {
        match self.embeds.get(&message_id) {
            Some(cards) => {
                if index < cards.len() {
                    Some(&cards[index])
                } else {
                    None
                }
            },
            None => None,
        }
    }
}

} // verus!
