//! Exercises on data modelling: a document tree with parent links and an
//! HTML renderer, a student grade analyser, a log-processing pipeline and a
//! sensor schedule.

pub mod text;

pub mod dom;
pub mod grades;
pub mod logs;
pub mod pipeline;
pub mod sensor;
