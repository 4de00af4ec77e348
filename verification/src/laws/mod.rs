//! What holds of the processor as a whole.

pub mod accuracy;
pub mod angles;
pub mod averages;
pub mod channels;
pub mod chunks;
pub mod chunksize;
pub mod configured;
pub mod constants;
pub mod cutting;
pub mod designs;
pub mod detection;
pub mod gain;
pub mod health;
pub mod hearing;
pub mod hops;
pub mod lifecycle;
pub mod moments;
pub mod octaves;
pub mod output;
pub mod pacing;
pub mod playing;
pub mod polarity;
pub mod power;
pub mod reference;
pub mod runs;
pub mod sound;
pub mod stages;
pub mod steady;
pub mod streams;
pub mod timing;
