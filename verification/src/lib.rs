//! Speaker diarization: who spoke when in a recorded meeting.
//!
//! A recording is cut into windows (`windows`), a model scores them (`segmentation`,
//! `activity`) and voices are found where they are likely (`speech`). Each stretch of
//! speech gets a voice print (`features`, `embedding`); the prints are grouped by
//! speaker (`clustering`) and the stretches joined (`diarizer`). The lines of a
//! transcript are then given their speakers (`alignment`). What the application does
//! around this is decided in `models` and `run`.
//!
//! What all this comes to is stated in terms of the recording and of what the models say
//! of it, as it is where numbers are exact (`exact`): which speech is found (`hearing`),
//! what a voice print is made of (`printing`), who is grouped with whom (`grouping`), and
//! what is told of it (`telling`). What is not a number decides nothing (`oddities`). When
//! the stages can work is stated in `readiness`.

pub mod activity;
pub mod alignment;
pub mod clock;
pub mod clustering;
pub mod diarizer;
pub mod embedding;
pub mod exact;
pub mod exchange;
pub mod features;
pub mod functions;
pub mod grouping;
pub mod hearing;
pub mod models;
pub mod oddities;
pub mod order;
pub mod printing;
pub mod readiness;
pub mod run;
pub mod scalar;
pub mod segmentation;
pub mod speech;
pub mod telling;
pub mod tensor;
pub mod text;
pub mod types;
pub mod windows;
