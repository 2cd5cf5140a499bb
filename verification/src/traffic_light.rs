//! A traffic light cycling red, green, yellow, red.

use vstd::prelude::*;
use crate::text::owned;

verus! {

/// The colour a traffic light shows.
#[derive(Clone, Copy, PartialEq, Eq, Debug)]
pub enum Light {
    Red,
    Green,
    Yellow,
}

impl Light {
    /// The colour that follows this one.
    pub open spec fn following(self) -> Light {
        match self {
            Light::Red => Light::Green,
            Light::Green => Light::Yellow,
            Light::Yellow => Light::Red,
        }
    }

    /// What the light says while showing this colour.
    pub open spec fn status_text(self) -> Seq<char> {
        match self {
            Light::Red => "Light is RED. STOP! 🛑"@,
            Light::Green => "Light is GREEN. GO! 🟢"@,
            Light::Yellow => "Light is YELLOW. PREPARE TO STOP! 🟠"@,
        }
    }

    /// What the light says when it leaves this colour.
    pub open spec fn change_text(self) -> Seq<char> {
        match self {
            Light::Red => "Changing from Red to Green... 🚦"@,
            Light::Green => "Changing from Green to Yellow... 🚦"@,
            Light::Yellow => "Changing from Yellow to Red... 🚦"@,
        }
    }

    /// The colour that follows this one.
    pub fn next_state(self) -> (r: Light)
        ensures
            r == self.following(),
    {
        match self {
            Light::Red => Light::Green,
            Light::Green => Light::Yellow,
            Light::Yellow => Light::Red,
        }
    }

    /// What the light says while showing this colour.
    pub fn status(&self) -> (r: String)
        ensures
            r@ == self.status_text(),
    {
        match self {
            Light::Red => owned("Light is RED. STOP! 🛑"),
            Light::Green => owned("Light is GREEN. GO! 🟢"),
            Light::Yellow => owned("Light is YELLOW. PREPARE TO STOP! 🟠"),
        }
    }

    /// What the light says when it leaves this colour.
    pub fn change_message(&self) -> (r: String)
        ensures
            r@ == self.change_text(),
    {
        match self {
            Light::Red => owned("Changing from Red to Green... 🚦"),
            Light::Green => owned("Changing from Green to Yellow... 🚦"),
            Light::Yellow => owned("Changing from Yellow to Red... 🚦"),
        }
    }
}

/// Three changes bring a light back to its colour, and no change keeps it.
pub proof fn lemma_light_cycle(l: Light)
    ensures
        l.following().following().following() == l,
        l.following() != l,
        l.following().following() != l,
{
}

/// A traffic light and the colour it shows.
pub struct TrafficLight {
    state: Light,
}

impl View for TrafficLight {
    type V = Light;

    closed spec fn view(&self) -> Light {
        self.state
    }
}

impl TrafficLight {
    /// A light that starts red.
    pub fn new() -> (r: TrafficLight)
        ensures
            r@ == Light::Red,
    {
        TrafficLight { state: Light::Red }
    }

    /// The colour shown.
    pub fn state(&self) -> (r: Light)
        ensures
            r == self@,
    {
        self.state
    }

    /// Moves to the next colour, returning what the light says as it does.
    pub fn change_state(&mut self) -> (message: String)
        ensures
            final(self)@ == old(self)@.following(),
            message@ == old(self)@.change_text(),
    {
        let message = self.state.change_message();
        self.state = self.state.next_state();
        message
    }

    /// What the light says about its current colour.
    pub fn report_status(&self) -> (r: String)
        ensures
            r@ == self@.status_text(),
    {
        self.state.status()
    }
}

} // verus!
