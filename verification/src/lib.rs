//! A pixelated plotting canvas: a raw RGB raster plus a packed-color cell
//! buffer, with block, border, curve, scatter and graph drawing primitives.

pub mod canvas;
pub mod mapper;
pub mod network;
pub mod pixl;
pub mod raster;
