//! Event cards, their response options and the stat effects they carry.

use super::{clone_opt_string, clone_stages, opt_view, seq_view, Stage};
use vstd::prelude::*;

verus! {

/// Which player stat an effect changes.
#[derive(Debug, Clone, Copy, PartialEq, Eq, Structural)]
pub enum StatType {
    Money,
    Stress,
    Support,
    TimeSlots,
    Credentials,
}

/// Card rarity tier.
#[derive(Debug, Clone, Copy, PartialEq, Eq, Structural)]
pub enum Rarity {
    Common,
    Uncommon,
    Rare,
}

/// A single stat modification. For `Credentials` the `tag` names the credential
/// to add and `delta` is not read; for the other stats `delta` is the signed amount.
#[derive(Debug)]
pub struct StatEffect {
    pub stat: StatType,
    pub delta: i32,
    pub tag: Option<String>,
}

/// The mathematical value of a [`StatEffect`].
pub struct StatEffectView {
    pub stat: StatType,
    pub delta: int,
    pub tag: Option<Seq<char>>,
}

impl View for StatEffect {
    type V = StatEffectView;

    open spec fn view(&self) -> StatEffectView {
        StatEffectView { stat: self.stat, delta: self.delta as int, tag: opt_view(self.tag) }
    }
}

impl Clone for StatEffect {
    fn clone(&self) -> (r: Self)
        ensures
            r@ == self@,
    {
        StatEffect { stat: self.stat, delta: self.delta, tag: clone_opt_string(&self.tag) }
    }
}

/// A copy of a list of effects.
pub fn clone_effects(v: &Vec<StatEffect>) -> (r: Vec<StatEffect>)
    ensures
        seq_view(r@) == seq_view(v@),
{
    let r = v.clone();
    assert forall|i: int| 0 <= i < v@.len() implies r@[i]@ == v@[i]@ by {
        assert(cloned::<StatEffect>(v@[i], r@[i]));
    }
    assert(seq_view(r@) =~= seq_view(v@));
    r
}

/// Stat effects that are meant to apply a number of turns in the future.
/// The turn runner carries them along and never applies them.
#[derive(Debug)]
pub struct DelayedEffect {
    pub turns_until: u32,
    pub effects: Vec<StatEffect>,
}

/// The mathematical value of a [`DelayedEffect`].
pub struct DelayedEffectView {
    pub turns_until: int,
    pub effects: Seq<StatEffectView>,
}

impl View for DelayedEffect {
    type V = DelayedEffectView;

    open spec fn view(&self) -> DelayedEffectView {
        DelayedEffectView {
            turns_until: self.turns_until as int,
            effects: seq_view(self.effects@),
        }
    }
}

impl Clone for DelayedEffect {
    fn clone(&self) -> (r: Self)
        ensures
            r@ == self@,
    {
        DelayedEffect { turns_until: self.turns_until, effects: clone_effects(&self.effects) }
    }
}

/// The view of an optional list of delayed effects.
pub open spec fn opt_delayed_view(o: Option<Vec<DelayedEffect>>) -> Option<Seq<DelayedEffectView>> {
    match o {
        Some(v) => Some(seq_view(v@)),
        None => None,
    }
}

/// One response option on an event card.
#[derive(Debug)]
pub struct EventOption {
    pub label: String,
    pub description: String,
    pub effects: Vec<StatEffect>,
    pub delayed_effects: Option<Vec<DelayedEffect>>,
    pub requires_support: Option<i32>,
}

/// The mathematical value of an [`EventOption`].
pub struct EventOptionView {
    pub label: Seq<char>,
    pub description: Seq<char>,
    pub effects: Seq<StatEffectView>,
    pub delayed_effects: Option<Seq<DelayedEffectView>>,
    pub requires_support: Option<i32>,
}

impl View for EventOption {
    type V = EventOptionView;

    open spec fn view(&self) -> EventOptionView {
        EventOptionView {
            label: self.label@,
            description: self.description@,
            effects: seq_view(self.effects@),
            delayed_effects: opt_delayed_view(self.delayed_effects),
            requires_support: self.requires_support,
        }
    }
}

impl Clone for EventOption {
    fn clone(&self) -> (r: Self)
        ensures
            r@ == self@,
    {
        let delayed_effects = match &self.delayed_effects {
            Some(v) => {
                let c = v.clone();
                assert forall|i: int| 0 <= i < v@.len() implies c@[i]@ == v@[i]@ by {
                    assert(cloned::<DelayedEffect>(v@[i], c@[i]));
                }
                assert(seq_view(c@) =~= seq_view(v@));
                Some(c)
            },
            None => None,
        };
        EventOption {
            label: self.label.clone(),
            description: self.description.clone(),
            effects: clone_effects(&self.effects),
            delayed_effects,
            requires_support: self.requires_support,
        }
    }
}

/// A life event card drawn during the event phase of a turn.
#[derive(Debug)]
pub struct EventCard {
    pub id: String,
    pub title: String,
    pub flavor_text: String,
    pub stages: Vec<Stage>,
    pub rarity: Rarity,
    pub options: Vec<EventOption>,
}

/// The mathematical value of an [`EventCard`].
pub struct EventCardView {
    pub id: Seq<char>,
    pub title: Seq<char>,
    pub flavor_text: Seq<char>,
    pub stages: Seq<Stage>,
    pub rarity: Rarity,
    pub options: Seq<EventOptionView>,
}

impl View for EventCard {
    type V = EventCardView;

    open spec fn view(&self) -> EventCardView {
        EventCardView {
            id: self.id@,
            title: self.title@,
            flavor_text: self.flavor_text@,
            stages: self.stages@,
            rarity: self.rarity,
            options: seq_view(self.options@),
        }
    }
}

impl Clone for EventCard {
    fn clone(&self) -> (r: Self)
        ensures
            r@ == self@,
    {
        let options = self.options.clone();
        assert forall|i: int| 0 <= i < self.options@.len() implies options@[i]@
            == self.options@[i]@ by {
            assert(cloned::<EventOption>(self.options@[i], options@[i]));
        }
        assert(seq_view(options@) =~= seq_view(self.options@));
        EventCard {
            id: self.id.clone(),
            title: self.title.clone(),
            flavor_text: self.flavor_text.clone(),
            stages: clone_stages(&self.stages),
            rarity: self.rarity,
            options,
        }
    }
}

/// The view of an optional event card.
pub open spec fn opt_card_view(o: Option<EventCard>) -> Option<EventCardView> {
    match o {
        Some(c) => Some(c@),
        None => None,
    }
}

} // verus!
