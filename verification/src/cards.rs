//! Cards and the packs they come in.

use vstd::prelude::*;
use crate::seqs::views_of;

verus! {

/// Names one card of a game: the position of its pack in the game's pack list, and the
/// card's position inside that pack.
#[derive(Clone, Copy, PartialEq, Eq, Structural, PartialOrd, Ord, Hash, Debug)]
pub struct CardID {
    pub pack_number: usize,
    pub card_number: usize,
}

impl CardID {
    pub fn new(pack_number: usize, card_number: usize) -> (card: Self)
        ensures
            card.pack_number == pack_number,
            card.card_number == card_number,
    {
        CardID { pack_number, card_number }
    }
}

/// The text of a response card.
pub type Response = String;

/// A prompt card: its text and how many responses it asks each player for.
#[derive(Debug, PartialEq, Eq)]
pub struct Prompt {
    pub text: String,
    pub pick: u8,
}

/// What a [`Prompt`] holds.
pub struct PromptView {
    pub text: Seq<char>,
    pub pick: u8,
}

impl View for Prompt {
    type V = PromptView;

    open spec fn view(&self) -> PromptView {
        PromptView { text: self.text@, pick: self.pick }
    }
}

impl Clone for Prompt {
    fn clone(&self) -> (copy: Self)
        ensures
            copy@ == self@,
    {
        Prompt { text: self.text.clone(), pick: self.pick }
    }
}

/// The fewest responses a prompt may ask for.
pub const MIN_PICK: u8 = 1;

/// The most responses a prompt may ask for.
pub const MAX_PICK: u8 = 3;

/// A named set of prompt and response cards. Immutable once loaded.
#[derive(Debug, PartialEq, Eq)]
pub struct Pack {
    pub name: String,
    pub official: bool,
    pub responses: Vec<Response>,
    pub prompts: Vec<Prompt>,
}

/// What a [`Pack`] holds.
pub struct PackView {
    pub name: Seq<char>,
    pub official: bool,
    pub responses: Seq<Seq<char>>,
    pub prompts: Seq<PromptView>,
}

impl View for Pack {
    type V = PackView;

    open spec fn view(&self) -> PackView {
        PackView {
            name: self.name@,
            official: self.official,
            responses: views_of(self.responses@),
            prompts: views_of(self.prompts@),
        }
    }
}

impl PackView {
    /// Every prompt asks for between one and three responses.
    pub open spec fn picks_in_range(self) -> bool {
        forall|i: int|
            0 <= i < self.prompts.len() ==> MIN_PICK <= (#[trigger] self.prompts[i]).pick
                <= MAX_PICK
    }
}

/// The catalog's summary of a pack.
#[derive(Clone, Copy, PartialEq, Eq, Structural, Debug)]
pub struct PackMeta {
    pub official: bool,
    pub num_prompts: usize,
    pub num_responses: usize,
}

impl Pack {
    /// The pack's catalog summary: its official flag and its card counts.
    pub fn meta(&self) -> (meta: PackMeta)
        ensures
            meta.official == self@.official,
            meta.num_prompts == self@.prompts.len(),
            meta.num_responses == self@.responses.len(),
    {
        PackMeta {
            official: self.official,
            num_prompts: self.prompts.len(),
            num_responses: self.responses.len(),
        }
    }

    /// Whether every prompt of the pack asks for between one and three responses.
    pub fn picks_in_range(&self) -> (ok: bool)
        ensures
            ok == self@.picks_in_range(),
    {
        let mut i: usize = 0;
        while i < self.prompts.len()
            invariant
                i <= self.prompts.len(),
                forall|j: int| 0 <= j < i
                    ==> MIN_PICK <= (#[trigger] self@.prompts[j]).pick <= MAX_PICK,
            decreases self.prompts.len() - i,
        {
            let pick: u8 = self.prompts[i].pick;
            if pick < MIN_PICK || pick > MAX_PICK {
                assert(self@.prompts[i as int].pick == pick);
                return false;
            }
            assert(self@.prompts[i as int].pick == pick);
            i += 1;
        }
        true
    }
}

} // verus!
