use zdm::components::Gender;
use zdm::to_plural::ToPlural;

#[test]
fn test_file_to_plural() {
    let word = "file".to_string();
    let plural_word = word.to_plural();
    assert_eq!(plural_word, "files");
}

#[test]
fn word_ending_in_s_gets_es() {
    let word = "boss".to_string();
    assert_eq!(word.to_plural(), "bosses");
}

#[test]
fn gender_child_strings() {
    assert_eq!(Gender::Male.to_child_string(), "boy");
    assert_eq!(Gender::Female.to_child_string(), "girl");
    assert_eq!(Gender::Other.to_child_string(), "child");
}

#[test]
fn gender_informal_adult_strings() {
    assert_eq!(Gender::Male.to_informal_adult_string(), "man");
    assert_eq!(Gender::Female.to_informal_adult_string(), "woman");
    assert_eq!(Gender::Other.to_informal_adult_string(), "person");
}

#[test]
fn gender_formal_adult_strings() {
    assert_eq!(Gender::Male.to_formal_adult_string(), "gentleman");
    assert_eq!(Gender::Female.to_formal_adult_string(), "lady");
    assert_eq!(Gender::Other.to_formal_adult_string(), "gentleperson");
}

#[test]
fn gender_pronoun_strings() {
    assert_eq!(Gender::Male.to_pronoun_string(), "he");
    assert_eq!(Gender::Female.to_pronoun_string(), "she");
    assert_eq!(Gender::Other.to_pronoun_string(), "them");
}
