use vstd::prelude::*;

pub mod text;
pub mod subnet;
pub mod update_check;
pub mod decimal;
pub mod rounding;
pub mod binary;
pub mod conversations;
pub mod toptalkers;
pub mod summary;
pub mod download;
pub mod merge;
pub mod filter;
pub mod jobs;
pub mod html;
pub mod web;
pub mod tools;
pub mod ping;
pub mod convert;
pub mod outcomes;

verus! {

} // verus!
