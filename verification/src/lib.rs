//! Fixed-width binary arithmetic gadgets for an arithmetic-circuit builder.
//!
//! The circuit builder records field-valued signals together with the
//! constraints that a satisfying witness must obey: signals pinned to
//! constants, equality constraints, zero constraints, and the operation
//! slots of custom gate rows (binary multiply-add and binary subtraction).
//! The gadget layer builds fixed-width unsigned arithmetic on top of those
//! slots: multiply-add, addition with carry, multi-operand summation, and
//! subtraction with borrow.  Every operation's contract states what any
//! satisfying witness of the finished circuit must assign to the returned
//! handles.

pub mod circuit;
pub mod allocator;
pub mod binary_arithmetic;
pub mod laws;

