//! The verified core of `dd-ng`, a `dd` over SSH that splits one transfer
//! across several parallel SSH connections.
//!
//! The library decides and computes; it does no input or output. Where a
//! process waits for the world, the library has a state machine: `next` says
//! what is to be done, and a method named after the event takes what came of
//! it.
//!
//! * The protocol: [`proto`] has the messages and the header of a frame,
//!   [`lines`] the lines that carry messages, [`crc`] the checksums.
//! * The sender: [`send`] plans a transfer and judges how it ended, [`ranges`]
//!   splits the input, [`send_range`] and [`framed`] run its streams, [`queue`]
//!   feeds them in framed mode, and [`ssh`] builds the commands that start the
//!   receiver.
//! * The receiver: [`recv_ctrl`] is its control process, [`recv_data`],
//!   [`recv_range`] and [`framed`] are its data processes.
//! * What holds of whole transfers: [`output`] has the output file as a
//!   mathematical object, and [`transfer`] follows a transfer from end to end.
//! * For the user: [`size`] reads sizes, [`stats`] counts, [`busy`] judges what
//!   held a transfer up, [`text`] makes texts. [`big`] and [`double`] are the
//!   arithmetic for them.

pub mod text;

pub mod big;
pub mod double;
pub mod size;

pub mod crc;
pub mod lines;
pub mod output;
pub mod proto;
pub mod ranges;

pub mod framed;
pub mod queue;
pub mod send;
pub mod send_range;
pub mod ssh;

pub mod recv_ctrl;
pub mod recv_data;
pub mod recv_range;

pub mod transfer;

pub mod busy;
pub mod stats;
