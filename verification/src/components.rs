//! Building blocks for simple generated phrases: who is speaking, who is
//! spoken about, and how they prefer to be addressed.

use vstd::prelude::*;

verus! {

/// How a person or animal is gendered in generated text.
pub enum Gender {
    Male,
    Female,
    Other,
}

/// The article that introduces a noun phrase.
pub enum Article {
    The,
    A,
    Number(u64),
}

/// A proper name for an animal.
pub struct AnimalName {
    pub name: String,
}

type Age = i16;

/// How an animal prefers to be referred to.
pub enum AnimalPreferredAddressing {
    Name(AnimalName, String, Gender),
    Pronoun(Gender),
    AgeSex(Article, AnimalName, Age, Gender),
}

/// How a person prefers to be referred to.
pub enum PersonPreferredAddressing {
    Name(String, Gender),
    Pronoun(Gender),
    AgeSex(Article, Age, Gender),
}

/// Someone who can act in a phrase.
pub enum Actor {
    Person(PersonPreferredAddressing),
    Animal(AnimalPreferredAddressing),
}

/// Something a phrase can be about.
pub enum Object {
    Actor(Actor),
    Item(Article, String),
}

impl Gender {
    /// The noun used for a child of this gender.
    pub fn to_child_string(&self) -> (r: String)
        ensures
            self is Male ==> r@ == "boy"@,
            self is Female ==> r@ == "girl"@,
            self is Other ==> r@ == "child"@,
    {
        match self {
            Gender::Male => "boy".to_owned(),
            Gender::Female => "girl".to_owned(),
            Gender::Other => "child".to_owned(),
        }
    }

    /// The noun used informally for an adult of this gender.
    pub fn to_informal_adult_string(&self) -> (r: String)
        ensures
            self is Male ==> r@ == "man"@,
            self is Female ==> r@ == "woman"@,
            self is Other ==> r@ == "person"@,
    {
        match self {
            Gender::Male => "man".to_owned(),
            Gender::Female => "woman".to_owned(),
            Gender::Other => "person".to_owned(),
        }
    }

    /// The noun used formally for an adult of this gender.
    pub fn to_formal_adult_string(&self) -> (r: String)
        ensures
            self is Male ==> r@ == "gentleman"@,
            self is Female ==> r@ == "lady"@,
            self is Other ==> r@ == "gentleperson"@,
    {
        match self {
            Gender::Male => "gentleman".to_owned(),
            Gender::Female => "lady".to_owned(),
            Gender::Other => "gentleperson".to_owned(),
        }
    }

    /// The pronoun used for this gender.
    pub fn to_pronoun_string(&self) -> (r: String)
        ensures
            self is Male ==> r@ == "he"@,
            self is Female ==> r@ == "she"@,
            self is Other ==> r@ == "them"@,
    {
        match self {
            Gender::Male => "he".to_owned(),
            Gender::Female => "she".to_owned(),
            Gender::Other => "them".to_owned(),
        }
    }
}

} // verus!
