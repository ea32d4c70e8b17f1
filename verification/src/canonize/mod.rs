pub mod process;
