#![allow(non_snake_case)]
use vstd::prelude::*;

pub mod term;
pub mod unify;
pub mod truth;
pub mod stamp;
pub mod sentence;
pub mod order;
pub mod inference;
pub mod termapi;
pub mod mem;
pub mod rng;
pub mod goals;
pub mod proc;
pub mod cycle;
pub mod nar;
