//! Verified core of an Android firmware kitchen: image headers, archive
//! formats, transfer lists, payload manifests and the flashing guard rails.
pub mod bytes;
pub mod vbmeta;
pub mod text;
pub mod cpio;
pub mod sdat;
pub mod compare;
pub mod device;
pub mod payload;
pub mod dtbo;
pub mod props;
pub mod paths;
pub mod fsconfig;
pub mod ikconfig;
pub mod tools;
pub mod imaging;
pub mod workspace;
pub mod unpack;
