//! The closed set of activity categories and its string encoding.
//!
//! Each category is stored on disk as its canonical display label; an
//! unrecognized label is a hard decode error, never a default.

use vstd::prelude::*;

verus! {

/// One of the ten activity categories a record can carry.
#[derive(Clone, Copy, Debug, PartialEq, Eq, Structural)]
pub enum PomodoroType {
    Product,
    CustomerPartnerCommunity,
    Content,
    Team,
    SocialMedia,
    Unqueued,
    Queued,
    LearnTrain,
    Travel,
    PTO,
}

impl PomodoroType {
    /// The canonical display label of a category.
    pub open spec fn label(self) -> Seq<char> {
        match self {
            PomodoroType::Product => "Product"@,
            PomodoroType::CustomerPartnerCommunity => "Customer/Partner/Community"@,
            PomodoroType::Content => "Content"@,
            PomodoroType::Team => "Team"@,
            PomodoroType::SocialMedia => "Social Media"@,
            PomodoroType::Unqueued => "Unqueued"@,
            PomodoroType::Queued => "Queued"@,
            PomodoroType::LearnTrain => "Learn/Train"@,
            PomodoroType::Travel => "Travel"@,
            PomodoroType::PTO => "PTO"@,
        }
    }

    /// Which category, if any, a label string denotes.
    pub open spec fn spec_from_label(s: Seq<char>) -> Option<PomodoroType> {
        if s == PomodoroType::Product.label() {
            Some(PomodoroType::Product)
        } else if s == PomodoroType::CustomerPartnerCommunity.label() {
            Some(PomodoroType::CustomerPartnerCommunity)
        } else if s == PomodoroType::Content.label() {
            Some(PomodoroType::Content)
        } else if s == PomodoroType::Team.label() {
            Some(PomodoroType::Team)
        } else if s == PomodoroType::SocialMedia.label() {
            Some(PomodoroType::SocialMedia)
        } else if s == PomodoroType::Unqueued.label() {
            Some(PomodoroType::Unqueued)
        } else if s == PomodoroType::Queued.label() {
            Some(PomodoroType::Queued)
        } else if s == PomodoroType::LearnTrain.label() {
            Some(PomodoroType::LearnTrain)
        } else if s == PomodoroType::Travel.label() {
            Some(PomodoroType::Travel)
        } else if s == PomodoroType::PTO.label() {
            Some(PomodoroType::PTO)
        } else {
            None
        }
    }

    /// All ten categories, in canonical order.
    pub open spec fn spec_all() -> Seq<PomodoroType> {
        seq![
            PomodoroType::Product,
            PomodoroType::CustomerPartnerCommunity,
            PomodoroType::Content,
            PomodoroType::Team,
            PomodoroType::SocialMedia,
            PomodoroType::Unqueued,
            PomodoroType::Queued,
            PomodoroType::LearnTrain,
            PomodoroType::Travel,
            PomodoroType::PTO,
        ]
    }

    /// Renders the category as its canonical display label.
    pub fn to_label(&self) -> (r: String)
        ensures
            r@ == self.label(),
    {
        match self {
            PomodoroType::Product => String::from_str("Product"),
            PomodoroType::CustomerPartnerCommunity => String::from_str("Customer/Partner/Community"),
            PomodoroType::Content => String::from_str("Content"),
            PomodoroType::Team => String::from_str("Team"),
            PomodoroType::SocialMedia => String::from_str("Social Media"),
            PomodoroType::Unqueued => String::from_str("Unqueued"),
            PomodoroType::Queued => String::from_str("Queued"),
            PomodoroType::LearnTrain => String::from_str("Learn/Train"),
            PomodoroType::Travel => String::from_str("Travel"),
            PomodoroType::PTO => String::from_str("PTO"),
        }
    }

    /// Recognizes a canonical display label; any other string is rejected.
    pub fn from_label(s: &str) -> (r: Option<PomodoroType>)
        ensures
            r == Self::spec_from_label(s@),
    {
        let owned = String::from_str(s);
        if owned == String::from_str("Product") {
            Some(PomodoroType::Product)
        } else if owned == String::from_str("Customer/Partner/Community") {
            Some(PomodoroType::CustomerPartnerCommunity)
        } else if owned == String::from_str("Content") {
            Some(PomodoroType::Content)
        } else if owned == String::from_str("Team") {
            Some(PomodoroType::Team)
        } else if owned == String::from_str("Social Media") {
            Some(PomodoroType::SocialMedia)
        } else if owned == String::from_str("Unqueued") {
            Some(PomodoroType::Unqueued)
        } else if owned == String::from_str("Queued") {
            Some(PomodoroType::Queued)
        } else if owned == String::from_str("Learn/Train") {
            Some(PomodoroType::LearnTrain)
        } else if owned == String::from_str("Travel") {
            Some(PomodoroType::Travel)
        } else if owned == String::from_str("PTO") {
            Some(PomodoroType::PTO)
        } else {
            None
        }
    }

    /// All ten categories, in canonical order.
    pub fn all() -> (r: Vec<PomodoroType>)
        ensures
            r@ == Self::spec_all(),
    {
        let mut v: Vec<PomodoroType> = Vec::new();
        v.push(PomodoroType::Product);
        v.push(PomodoroType::CustomerPartnerCommunity);
        v.push(PomodoroType::Content);
        v.push(PomodoroType::Team);
        v.push(PomodoroType::SocialMedia);
        v.push(PomodoroType::Unqueued);
        v.push(PomodoroType::Queued);
        v.push(PomodoroType::LearnTrain);
        v.push(PomodoroType::Travel);
        v.push(PomodoroType::PTO);
        proof {
            assert(v@ =~= Self::spec_all());
        }
        v
    }
}

/// Every category's label parses back to that category and to no other:
/// the label encoding is lossless over the closed set.
pub proof fn lemma_label_round_trip(c: PomodoroType)
    ensures
        PomodoroType::spec_from_label(c.label()) == Some(c),
{
    reveal_strlit("Product");
    reveal_strlit("Customer/Partner/Community");
    reveal_strlit("Content");
    reveal_strlit("Team");
    reveal_strlit("Social Media");
    reveal_strlit("Unqueued");
    reveal_strlit("Queued");
    reveal_strlit("Learn/Train");
    reveal_strlit("Travel");
    reveal_strlit("PTO");
    // Pin down each label's length and first two characters, so that any
    // two labels are provably distinct (no two share both).
    assert("Product"@.len() == 7 && "Product"@[0] == 'P' && "Product"@[1] == 'r');
    assert("Customer/Partner/Community"@.len() == 26 && "Customer/Partner/Community"@[0] == 'C'
        && "Customer/Partner/Community"@[1] == 'u');
    assert("Content"@.len() == 7 && "Content"@[0] == 'C' && "Content"@[1] == 'o');
    assert("Team"@.len() == 4 && "Team"@[0] == 'T' && "Team"@[1] == 'e');
    assert("Social Media"@.len() == 12 && "Social Media"@[0] == 'S' && "Social Media"@[1] == 'o');
    assert("Unqueued"@.len() == 8 && "Unqueued"@[0] == 'U' && "Unqueued"@[1] == 'n');
    assert("Queued"@.len() == 6 && "Queued"@[0] == 'Q' && "Queued"@[1] == 'u');
    assert("Learn/Train"@.len() == 11 && "Learn/Train"@[0] == 'L' && "Learn/Train"@[1] == 'e');
    assert("Travel"@.len() == 6 && "Travel"@[0] == 'T' && "Travel"@[1] == 'r');
    assert("PTO"@.len() == 3 && "PTO"@[0] == 'P' && "PTO"@[1] == 'T');
}

} // verus!
