// Verified core of a device-notification bridge: byte buffers carrying a
// device identifier and a message are cut at their terminating zero byte,
// decoded as UTF-8 with lossy replacement of malformed sequences, and laid
// out as one output line. The unverified shell around the library owns the
// foreign-call boundary and the actual write to the output stream.

pub mod notify;
pub mod utf8;
