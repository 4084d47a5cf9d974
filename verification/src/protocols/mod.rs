//! Industrial protocol framing: each module splits a raw frame into its
//! header and the PDU to protect, and rebuilds the frame from them.
pub mod dnp3;
pub mod modbus;
