//! Finds files with identical content in a directory tree.
//!
//! A scan walks a tree depth first, fingerprints every regular file with
//! SHA-256 and groups the paths by fingerprint ([`ScanResult`]). The walk is a
//! step machine ([`Scanner`]): it asks for one directory listing or one file
//! at a time and is told what came back, so the code that touches the file
//! system stays outside the verified library. [`scan_tree`] runs the machine
//! over a tree held in memory, and the laws in [`laws`] say what every scan
//! returns.

pub mod digest;
pub mod groups;
pub mod laws;
pub mod scanner;
pub mod sightings;
pub mod tree;
pub mod walk;

pub use groups::Group;
pub use groups::ScanResult;
pub use scanner::Entry;
pub use scanner::Event;
pub use scanner::Kind;
pub use scanner::Phase;
pub use scanner::ReadError;
pub use scanner::Scanner;
pub use tree::Body;
pub use tree::Node;
pub use walk::scan_tree;
pub use walk::Scan;
