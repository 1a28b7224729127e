pub mod tone;
