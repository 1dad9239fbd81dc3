pub mod rebuild;
