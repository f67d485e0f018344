//! Management of the licence-plate allow list of a network camera: the
//! requests that the camera's control interface takes, the classification of
//! its replies, and the decoding of its indexed plate list.

pub mod text;
pub mod protocol;
pub mod codec;
pub mod camera;
pub mod clearing;
pub mod fixture;

pub use camera::{read_list, Camera};
pub use clearing::{Action, Clearing, Stage};
pub use codec::{parse_raw_cars_list, Car};
pub use protocol::{classify, write_status, CameraError, Reply, Request};
