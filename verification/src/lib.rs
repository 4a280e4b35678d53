use vstd::prelude::*;

pub mod advisor;
pub mod aiadvisor;
pub mod bench;
pub mod big;
pub mod calibrate;
pub mod campaign;
pub mod cancel;
pub mod connector;
pub mod dates;
pub mod diagnose;
pub mod discover;
pub mod energy;
pub mod evidence;
pub mod fingerprint;
pub mod gguf;
pub mod hermes;
pub mod history;
pub mod json;
pub mod jsonc;
pub mod library;
pub mod managed;
pub mod measurements;
pub mod meter;
pub mod num;
pub mod ollama;
pub mod opencode;
pub mod path;
pub mod piagent;
pub mod preset;
pub mod quality;
pub mod ratios;
pub mod reasoning;
pub mod router;
pub mod rows;
pub mod runs;
pub mod safefs;
pub mod settings;
pub mod system;
pub mod text;
pub mod textmap;
pub mod trial;
pub mod variants;
pub mod warden;
pub mod workload;
pub mod yaml;

verus! {

} // verus!
