//! An insertion-ordered hash map for a dynamic-language runtime, with the
//! shared-ownership handle that its keys and values are held through.

pub mod builtins;
pub mod dictdatatype;
pub mod dictiter;
pub mod dictkey;
pub mod dictrepr;
pub mod items;
pub mod laws;
pub mod objdict;
pub mod objnone;
pub mod payload;
pub mod probe;
pub mod pyobject;
pub mod pyobjectrc;
