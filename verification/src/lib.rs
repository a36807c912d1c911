//! A world clock's library: searching a city list, the saved list's file
//! format, reading the time elsewhere, the state behind the window and its
//! search picker, and the filters that boil the GeoNames dumps down to the
//! city list.

pub mod text;
pub mod search;
pub mod saved;
pub mod clock;
pub mod gazetteer;
pub mod order;
pub mod picker;
pub mod window;
pub mod saver;
pub mod swapper;
