//! Event-driven reactions: the decision of how a robot answers each
//! environment event, separated from the printing and waiting that a
//! caller performs around it.

use vstd::prelude::*;

verus! {

broadcast use vstd::string::group_string_axioms;

/// An environment event delivered to a robot.
pub enum Event {
    /// A new obstacle was detected, named by the payload.
    ObstacleDetected(String),
    /// The destination changed to the named goal.
    GoalChanged(String),
    /// Nothing happened.
    Idle,
}

/// The reaction a robot decides on for one event; performing it (moving,
/// printing, waiting) is the caller's business.
pub enum Reaction {
    /// Evade the named obstacle, then continue.
    Avoid { obstacle: String },
    /// Navigate to the named goal.
    Navigate { goal: String },
    /// Stay put.
    Wait,
}

/// A robot known by its name.
pub struct Robot {
    pub name: String,
}

impl Robot {
    pub fn new(name: &str) -> (r: Self)
        ensures
            r.name@ == name@,
    {
        Robot { name: name.to_string() }
    }

    /// Decides the reaction to one event: obstacles are avoided, goal
    /// changes start navigation, and an idle tick waits.
    pub fn handle_event(&self, event: Event) -> (r: Reaction)
        ensures
            (match event {
                Event::ObstacleDetected(o) => r matches Reaction::Avoid { obstacle } && obstacle
                    == o,
                Event::GoalChanged(g) => r matches Reaction::Navigate { goal } && goal == g,
                Event::Idle => r is Wait,
            }),
    {
        match event {
            Event::ObstacleDetected(obstacle) => Reaction::Avoid { obstacle },
            Event::GoalChanged(goal) => Reaction::Navigate { goal },
            Event::Idle => Reaction::Wait,
        }
    }
}

/// The scripted environment: the fixed event sequence a simulated world
/// feeds to a robot, in order.
pub fn environment_events() -> (r: Vec<Event>)
    ensures
        r@.len() == 5,
        r@[0] matches Event::ObstacleDetected(o) && o@ == "Batu Besar"@,
        r@[1] matches Event::GoalChanged(g) && g@ == "Pos A"@,
        r@[2] is Idle,
        r@[3] matches Event::GoalChanged(g) && g@ == "Pos B"@,
        r@[4] matches Event::ObstacleDetected(o) && o@ == "Parit Lebar"@,
{
    let mut events: Vec<Event> = Vec::new();
    events.push(Event::ObstacleDetected("Batu Besar".to_string()));
    events.push(Event::GoalChanged("Pos A".to_string()));
    events.push(Event::Idle);
    events.push(Event::GoalChanged("Pos B".to_string()));
    events.push(Event::ObstacleDetected("Parit Lebar".to_string()));
    events
}

} // verus!
