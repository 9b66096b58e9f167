//! Translation of integer permission bitmasks into named capabilities.
//!
//! A *descriptor* maps capability names to the bit value that stands for
//! each of them. A *permission value* is an integer that a caller combines,
//! normally by OR-ing descriptor values together. This crate decides whether
//! such a value is representable under a descriptor ([`checks`]) and
//! decomposes it into the names and bit values that it activates
//! ([`role_capability`]). The data types live in [`models`].
//!
//! Every function is a pure computation over its arguments, and every
//! contract is stated over the mathematical model of a descriptor,
//! a finite map `Map<Seq<char>, i32>` from names to bit values.
//!
//! ```
//! use permission_translation::checks::is_valid_hex;
//! use permission_translation::models::CapabilityDescriptor;
//! use permission_translation::role_capability::RoleCapability;
//!
//! let mut descriptor = CapabilityDescriptor::new();
//! descriptor.insert("Administrator".to_string(), 0x1);
//! descriptor.insert("ManageServer".to_string(), 0x2);
//! descriptor.insert("ManageRoles".to_string(), 0x4);
//!
//! // Administrator + ManageServer
//! assert!(is_valid_hex(0x3, &descriptor));
//! assert!(!is_valid_hex(0x8, &descriptor));
//!
//! let role = RoleCapability::new(descriptor, 0x3);
//! let capabilities = role.to_name_set();
//! assert!(capabilities.contains("Administrator"));
//! assert!(capabilities.contains("ManageServer"));
//! assert!(!capabilities.contains("ManageRoles"));
//! ```

pub mod checks;
pub mod models;
pub mod role_capability;
mod text;
