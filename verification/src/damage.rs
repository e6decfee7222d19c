//! The damage types of the fifth-edition rules glossary.

use vstd::prelude::*;

verus! {

/// A kind of damage a roll may deal.
#[derive(Debug, Clone, Copy, PartialEq, Eq, Structural)]
pub enum DamageType {
    Acid,
    Bludgeoning,
    Cold,
    Fire,
    Force,
    Lightning,
    Necrotic,
    Piercing,
    Poison,
    Psychic,
    Radiant,
    Slashing,
    Thunder,
}

impl DamageType {
    /// The display name of the damage type.
    pub open spec fn name_spec(self) -> Seq<char> {
        match self {
            DamageType::Acid => "Acid"@,
            DamageType::Bludgeoning => "Bludgeoning"@,
            DamageType::Cold => "Cold"@,
            DamageType::Fire => "Fire"@,
            DamageType::Force => "Force"@,
            DamageType::Lightning => "Lightning"@,
            DamageType::Necrotic => "Necrotic"@,
            DamageType::Piercing => "Piercing"@,
            DamageType::Poison => "Poison"@,
            DamageType::Psychic => "Psychic"@,
            DamageType::Radiant => "Radiant"@,
            DamageType::Slashing => "Slashing"@,
            DamageType::Thunder => "Thunder"@,
        }
    }

    /// Writes the display name of the damage type.
    pub fn name(&self) -> (s: String)
        ensures
            s@ == self.name_spec(),
    {
        match self {
            DamageType::Acid => "Acid".to_owned(),
            DamageType::Bludgeoning => "Bludgeoning".to_owned(),
            DamageType::Cold => "Cold".to_owned(),
            DamageType::Fire => "Fire".to_owned(),
            DamageType::Force => "Force".to_owned(),
            DamageType::Lightning => "Lightning".to_owned(),
            DamageType::Necrotic => "Necrotic".to_owned(),
            DamageType::Piercing => "Piercing".to_owned(),
            DamageType::Poison => "Poison".to_owned(),
            DamageType::Psychic => "Psychic".to_owned(),
            DamageType::Radiant => "Radiant".to_owned(),
            DamageType::Slashing => "Slashing".to_owned(),
            DamageType::Thunder => "Thunder".to_owned(),
        }
    }
}

} // verus!
