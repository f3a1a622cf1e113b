//! Verified core of the GP2 car UV mapper: the JAM cipher, the car `.dat`
//! geometry reader, the SVGA per-face UV table codec and in-place patcher,
//! the face-model builder, and the BMP wireframe template writer.

pub mod le;
pub mod jam;
pub mod dat;
pub mod uvtable;
pub mod unwrap;
pub mod model;
pub mod patch;
pub mod bmp;
pub mod roundtrip;
pub mod inplace;
pub mod stamp;
pub mod weld;
