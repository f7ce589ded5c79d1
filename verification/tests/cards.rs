use cfh::cards::{CardID, Pack, PackMeta, Prompt};
use cfh::protocol::ResponseData;

fn prompt(text: &str, pick: u8) -> Prompt {
    Prompt { text: text.to_owned(), pick }
}

#[test]
fn card_id_new_keeps_both_numbers() {
    let card = CardID::new(3, 7);
    assert_eq!(card.pack_number, 3);
    assert_eq!(card.card_number, 7);
    assert_eq!(card, CardID { pack_number: 3, card_number: 7 });
    assert!(CardID::new(0, 9) < CardID::new(1, 0));
}

#[test]
fn pack_meta_counts_the_cards() {
    let pack = Pack {
        name: "Animals".to_owned(),
        official: true,
        responses: vec!["A cat.".to_owned(), "A dog.".to_owned(), "A newt.".to_owned()],
        prompts: vec![prompt("Why?", 1), prompt("What and what?", 2)],
    };
    assert_eq!(pack.meta(), PackMeta { official: true, num_prompts: 2, num_responses: 3 });
}

#[test]
fn pack_meta_of_an_empty_pack() {
    let pack = Pack { name: String::new(), official: false, responses: vec![], prompts: vec![] };
    assert_eq!(pack.meta(), PackMeta { official: false, num_prompts: 0, num_responses: 0 });
    assert!(pack.picks_in_range());
}

#[test]
fn picks_must_be_between_one_and_three() {
    let with = |pick: u8| Pack {
        name: "P".to_owned(),
        official: false,
        responses: vec![],
        prompts: vec![prompt("a", 1), prompt("b", pick)],
    };
    assert!(!with(0).picks_in_range());
    assert!(with(1).picks_in_range());
    assert!(with(3).picks_in_range());
    assert!(!with(4).picks_in_range());
}

#[test]
fn prompt_clone_is_equal() {
    let asked = prompt("Why?", 2);
    assert_eq!(asked.clone(), asked);
}

#[test]
fn response_data_new_keeps_id_and_text() {
    let data = ResponseData::new(CardID::new(1, 2), "A cat.".to_owned());
    assert_eq!(data.id, CardID::new(1, 2));
    assert_eq!(data.text, "A cat.");
    assert_eq!(data.clone(), data);
}
