use vstd::prelude::*;

pub mod text;
pub mod codec;
pub mod bluetooth;
pub mod config;
pub mod efi;
pub mod sync;
pub mod record;
pub mod monitor;
pub mod info;
pub mod linux;
pub mod migrate;
pub mod windows;

verus! {
} // verus!
