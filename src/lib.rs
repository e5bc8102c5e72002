//! An epidemic among moving agents: contamination by contact, and progression
//! of infected agents to death or recovery after an incubation period.

mod clock;
pub mod dice;
pub mod human;
pub mod contagion;
pub mod progression;
pub mod population;
