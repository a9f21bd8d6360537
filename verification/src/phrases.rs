//! The closed vocabulary of feedback about a former teammate.
//!
//! Each phrase may file the teammate under a category, stage a wish to work
//! with them again, or stage a refusal. A phrase outside the vocabulary is an
//! input error.

use crate::names::{first_index, lemma_first_index, lemma_first_index_is, Name};
use vstd::prelude::*;
use vstd::string::StringExecFns;

verus! {

/// What one phrase of the vocabulary means.
#[derive(Debug, Clone)]
pub struct PhraseRule {
    pub phrase: String,
    /// The category under which the phrase files the teammate, if any.
    pub category: Option<String>,
    /// Whether the phrase says the person wants the teammate again.
    pub want: bool,
    /// Whether the phrase says the person refuses the teammate.
    pub veto: bool,
}

/// A `PhraseRule` as plain mathematical values.
pub struct RuleModel {
    pub phrase: Name,
    pub category: Option<Name>,
    pub want: bool,
    pub veto: bool,
}

impl View for PhraseRule {
    type V = RuleModel;

    open spec fn view(&self) -> RuleModel {
        RuleModel {
            phrase: self.phrase@,
            category: match self.category {
                Some(c) => Some(c@),
                None => None,
            },
            want: self.want,
            veto: self.veto,
        }
    }
}

/// The models of a sequence of rules.
pub open spec fn rule_models(v: Seq<PhraseRule>) -> Seq<RuleModel> {
    Seq::new(v.len(), |i: int| v[i]@)
}

/// The phrases of a sequence of rules.
pub open spec fn phrases_of(table: Seq<RuleModel>) -> Seq<Name> {
    Seq::new(table.len(), |i: int| table[i].phrase)
}

/// The first rule of `table` for `phrase`, if `phrase` is in the table.
pub open spec fn rule_for(table: Seq<RuleModel>, phrase: Name) -> Option<RuleModel> {
    match first_index(phrases_of(table), phrase) {
        Some(i) => Some(table[i]),
        None => None,
    }
}

/// A rule that files under `category`.
pub open spec fn filing(phrase: Name, category: Name, veto: bool) -> RuleModel {
    RuleModel { phrase, category: Some(category), want: false, veto }
}

/// A rule that files under no category.
pub open spec fn plain(phrase: Name, want: bool, veto: bool) -> RuleModel {
    RuleModel { phrase, category: None, want, veto }
}

/// The vocabulary.
pub open spec fn vocabulary() -> Seq<RuleModel> {
    seq![
        filing("Fantastic teammate."@, "strong"@, false),
        plain("Would love to work with them again."@, true, false),
        filing(
            "Both of us working together were greater than the sum of the individuals."@,
            "helpful"@,
            false,
        ),
        plain("Was not technically capable of pulling their weight."@, false, true),
        filing("Did not have a great experience with them."@, "watch"@, true),
        filing("Did not put in sufficent effort."@, "lazy"@, true),
        filing("Was not sufficiently responsive."@, "lazy"@, true),
        filing("Procrastinated."@, "lazy"@, true),
        filing("Disrespectful."@, "problem"@, true),
        filing("Abusive."@, "problem"@, true),
    ]
}

fn filing_rule(phrase: &str, category: &str, veto: bool) -> (r: PhraseRule)
    ensures
        r@ == filing(phrase@, category@, veto),
{
    PhraseRule {
        phrase: String::from_str(phrase),
        category: Some(String::from_str(category)),
        want: false,
        veto,
    }
}

fn plain_rule(phrase: &str, want: bool, veto: bool) -> (r: PhraseRule)
    ensures
        r@ == plain(phrase@, want, veto),
{
    PhraseRule { phrase: String::from_str(phrase), category: None, want, veto }
}

/// The vocabulary, as a table to look phrases up in.
pub fn vocabulary_table() -> (r: Vec<PhraseRule>)
    ensures
        rule_models(r@) == vocabulary(),
{
    let mut t: Vec<PhraseRule> = Vec::new();
    t.push(filing_rule("Fantastic teammate.", "strong", false));
    t.push(plain_rule("Would love to work with them again.", true, false));
    t.push(
        filing_rule(
            "Both of us working together were greater than the sum of the individuals.",
            "helpful",
            false,
        ),
    );
    t.push(plain_rule("Was not technically capable of pulling their weight.", false, true));
    t.push(filing_rule("Did not have a great experience with them.", "watch", true));
    t.push(filing_rule("Did not put in sufficent effort.", "lazy", true));
    t.push(filing_rule("Was not sufficiently responsive.", "lazy", true));
    t.push(filing_rule("Procrastinated.", "lazy", true));
    t.push(filing_rule("Disrespectful.", "problem", true));
    t.push(filing_rule("Abusive.", "problem", true));
    proof {
        assert(rule_models(t@) =~= vocabulary());
    }
    t
}

/// Where the first rule for `phrase` stands in `table`, if `phrase` is in it.
pub fn find_rule(table: &Vec<PhraseRule>, phrase: &str) -> (r: Option<usize>)
    ensures
        match r {
            Some(i) => i < table.len() && rule_for(rule_models(table@), phrase@) == Some(table@[i as int]@),
            None => rule_for(rule_models(table@), phrase@).is_none(),
        },
{
    let key: String = phrase.to_owned();
    let ghost ps = phrases_of(rule_models(table@));
    let mut i: usize = 0;
    while i < table.len()
        invariant
            i <= table.len(),
            key@ == phrase@,
            ps == phrases_of(rule_models(table@)),
            forall|j: int| 0 <= j < i ==> ps[j] != phrase@,
        decreases table.len() - i,
    {
        if table[i].phrase == key {
            proof {
                assert(ps[i as int] == phrase@);
                lemma_first_index_is(ps, phrase@, i as int);
            }
            return Some(i);
        }
        i = i + 1;
    }
    proof {
        lemma_first_index(ps, phrase@);
    }
    None
}

} // verus!
