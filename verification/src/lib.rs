//! Offline point of sale for federated ecash.

pub mod base32;
pub mod base64_text;
pub mod config;
pub mod ecash;
pub mod ecash_fields;
pub mod hex_text;
pub mod invite;
pub mod keypad;
pub mod ledger;
pub mod notes;
pub mod numbers;
pub mod oob_notes;
pub mod operations;
pub mod parts;
pub mod plan;
pub mod plan_laws;
pub mod qr;
pub mod rates;
pub mod reading;
pub mod round_trip;
pub mod sound;
pub mod storage;
pub mod text;
pub mod tiers;
pub mod till;
pub mod till_laws;
pub mod till_rules;
pub mod varint;
pub mod views;
pub mod wallet_laws;
pub mod withdraw;
