//! The keyword spellings as constants, so a construct's kind (an `Origin`'s
//! `kind`) is matched against one spelling rather than a retyped string.
use vstd::prelude::*;

verus! {

/// `DOMAIN`
pub const DOMAIN: &'static str = "DOMAIN";

/// `FACT`
pub const FACT: &'static str = "FACT";

/// `NOT`
pub const NOT: &'static str = "NOT";

/// `ASSUME`
pub const ASSUME: &'static str = "ASSUME";

/// `PREMISE`
pub const PREMISE: &'static str = "PREMISE";

/// `RULE`
pub const RULE: &'static str = "RULE";

/// `CHECK`
pub const CHECK: &'static str = "CHECK";

/// `SET`
pub const SET: &'static str = "SET";

/// `CLOSE`
pub const CLOSE: &'static str = "CLOSE";

/// `VAR`
pub const VAR: &'static str = "VAR";

/// `PROVIDE`
pub const PROVIDE: &'static str = "PROVIDE";

/// `IMPORT`
pub const IMPORT: &'static str = "IMPORT";

/// `AS`
pub const AS: &'static str = "AS";

/// `FOR`
pub const FOR: &'static str = "FOR";

/// `EACH`
pub const EACH: &'static str = "EACH";

/// `IN`
pub const IN: &'static str = "IN";

/// `WHEN`
pub const WHEN: &'static str = "WHEN";

/// `THEN`
pub const THEN: &'static str = "THEN";

/// `AND`
pub const AND: &'static str = "AND";

/// `OR`
pub const OR: &'static str = "OR";

/// `EXCLUSIVE`
pub const EXCLUSIVE: &'static str = "EXCLUSIVE";

/// `FORBIDS`
pub const FORBIDS: &'static str = "FORBIDS";

/// `ONEOF`
pub const ONEOF: &'static str = "ONEOF";

/// `ATLEAST`
pub const ATLEAST: &'static str = "ATLEAST";

/// `EXISTS`
pub const EXISTS: &'static str = "EXISTS";

/// `BIDIRECTIONAL`
pub const BIDIRECTIONAL: &'static str = "BIDIRECTIONAL";

/// `TRANSITIVE`
pub const TRANSITIVE: &'static str = "TRANSITIVE";

/// `SYMMETRIC`
pub const SYMMETRIC: &'static str = "SYMMETRIC";

/// `REFLEXIVE`
pub const REFLEXIVE: &'static str = "REFLEXIVE";

/// `EQUIVALENCE`
pub const EQUIVALENCE: &'static str = "EQUIVALENCE";

/// `SCC`
pub const SCC: &'static str = "SCC";

/// `DEFAULT`
pub const DEFAULT: &'static str = "DEFAULT";

/// `UNLESS`
pub const UNLESS: &'static str = "UNLESS";

/// `WITNESS`
pub const WITNESS: &'static str = "WITNESS";

/// `BECAUSE`
pub const BECAUSE: &'static str = "BECAUSE";

} // verus!
