//! A catalog of the video files under a set of directory trees, kept in step
//! with the disk, and the decisions of the passes that maintain it: the
//! scanner that reconciles each regular file with its catalog entry, the
//! cleaner that sweeps out entries whose file has vanished, and the transcode
//! worker that claims one entry at a time and converts it to a target format.
pub mod catalog;
pub mod clean;
pub mod fingerprint;
pub mod module;
pub mod path;
pub mod probe;
pub mod reencode;
pub mod scan;
pub mod text;
pub mod timestamp;
pub mod walk;
