//! Retrieval planning and mosaic assembly for slippy-map raster tiles.
//!
//! A caller names a rectangle in tile space, the point to centre on and the
//! size of the picture. `retrieval` plans which tiles to ask for and takes
//! the answers; `fetch` judges each answer; `mosaic` decodes the tiles,
//! puts them on one canvas, cuts the picture out and encodes it.

pub mod batch;
pub mod codec;
pub mod fetch;
pub mod geometry;
pub mod mosaic;
pub mod raster;
pub mod retrieval;
pub mod text;
pub mod tileset;

pub use batch::TileBatch;
pub use fetch::{FetchError, TransportStep};
pub use geometry::{ConstrainedTileBox, TileBox, TileCoordinate, TileIndex};
pub use mosaic::{assemble, MosaicError};
pub use raster::Raster;
pub use retrieval::BatchRetriever;
pub use tileset::TileSet;
