//! Envelope containers and their serialized forms.
pub mod qr;
