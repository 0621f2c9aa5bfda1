// Reading, editing and writing the patch metadata of sample files.
//
// `util`     bytes: a cursor over the input, numbers and strings read and written
// `format`   the wire format of every chunk, as functions on sequences of bytes
// `chunks`   the chunks of a container, each read and written as `format` says
// `laws`     what is written is read back, and what is read is written back
// `binary32` single-precision numbers as exact ratios
// `op1`      patch metadata and the edits of its per-key tables
// `drum`     new patches made of samples
// `keys`     lists of keys and semitones as they are written by hand

pub mod binary32;
pub mod chunks;
pub mod drum;
pub mod format;
pub mod keys;
pub mod laws;
pub mod op1;
pub mod util;
