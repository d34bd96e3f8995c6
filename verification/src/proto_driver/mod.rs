pub mod proto_headers;
pub mod util;
pub mod channels;
