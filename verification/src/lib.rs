//! Wire-format primitives for DNS messages: a fixed-capacity packet buffer
//! with a cursor, and the codec for domain names with label compression.

pub mod byte_packet_buffer;
pub mod error;
pub mod name_format;
pub mod qname;
pub mod pointer_chains;
pub mod query_type;
pub mod roundtrip;
pub mod text;
pub mod text_labels;
