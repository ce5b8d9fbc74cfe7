use zdm::toilet::{toiletify_word, Error};

#[test]
fn word_with_spaces_should_result_in_error() {
    let input: String = "Fun Times".to_owned();

    let toilet_result = toiletify_word(&input);

    match toilet_result {
        Ok(_new_word) => panic!("String has space and should returned and error"),
        Err(error_code) => {
            assert_eq!(error_code, Error::WordHasSpace)
        }
    }
}

#[test]
fn word_that_wont_apply_results_in_error() {
    let input: String = "Lahabrea".to_owned();

    let toilet_result = toiletify_word(&input);

    match toilet_result {
        Ok(_new_word) => panic!("String result should not apply!"),
        Err(error_code) => {
            assert_eq!(error_code, Error::NonToiletWord)
        }
    }
}

#[test]
fn test_twilight_becomes_toilet() {
    let input: String = "twilight".to_owned();

    match toiletify_word(&input) {
        Ok(new_word) => assert_eq!(new_word, "toilet"),
        Err(_err) => {
            panic!("Should not result in error!")
        }
    }
}

#[test]
fn test_totalitarian_becomes_totoiletarian() {
    let input: String = "totalitarian".to_owned();

    match toiletify_word(&input) {
        Ok(new_word) => assert_eq!(new_word, "totoiletarian"),
        Err(_err) => {
            panic!("Should not result in error!")
        }
    }
}

#[test]
fn test_teletypewriter_becomes_toiletypewriter() {
    assert_eq!(toiletify_word("teletypewriter"), Ok("toiletypewriter".to_owned()));
}

#[test]
fn capitalised_twilight_still_becomes_toilet() {
    assert_eq!(toiletify_word("Twilight"), Ok("toilet".to_owned()));
}

#[test]
fn word_already_equal_to_its_replacement_is_an_error() {
    // "toilet" itself has the shape, but replacing it changes nothing
    assert_eq!(toiletify_word("toilet"), Err(Error::NonToiletWord));
}

#[test]
fn empty_word_results_in_error() {
    assert_eq!(toiletify_word(""), Err(Error::NonToiletWord));
}

#[test]
fn only_the_first_occurrence_is_replaced() {
    // both "talat" parts have the shape; only the leftmost is replaced
    assert_eq!(toiletify_word("xtalatytalatz"), Ok("xtoiletytalatz".to_owned()));
}
