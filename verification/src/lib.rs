use vstd::prelude::*;

pub mod text;
pub mod unicode;
pub mod markup;
pub mod table;
pub mod store;
pub mod media;
pub mod i18n;
pub mod search;
pub mod vault;
pub mod video;
pub mod wa;
pub mod update;
pub mod bridge;
pub mod camera;
pub mod call;
pub mod wa_map;
pub mod view;
pub mod qr;

verus! {
}
