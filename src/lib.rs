//! A generic evolutionary-optimisation engine: rank a population, keep the
//! fittest, inject fresh mutants and refill the population by crossover.
pub mod evolvable;
pub mod population;
pub mod ranking;
pub mod settings;

pub use evolvable::Evolvable;
pub use settings::EvolutionSettings;
