//! What can go wrong.

use vstd::prelude::*;
use vstd::string::StringExecFns;

verus! {

/// The step of reading or writing a file that failed.
#[derive(Clone, Copy, Debug, PartialEq, Eq, Structural)]
pub enum IoStage {
    /// The file could not be opened for reading.
    Open,
    /// The file was opened and then could not be read.
    Read,
    /// The file could not be created.
    Create,
    /// The file was created and then could not be written.
    Write,
}

/// A failure of an operation on the inventory or its file.
#[derive(Clone, Copy, Debug, PartialEq, Eq, Structural)]
pub enum InventoryError {
    /// No entry has the given key.
    NotFound,
    /// The file could not be read or written.
    Io(IoStage),
    /// A line does not have exactly four fields.
    MalformedRecord,
    /// The third field of a line does not write a price.
    InvalidPrice,
    /// The fourth field of a line does not write a quantity.
    InvalidQuantity,
}

impl InventoryError {
    /// The words that tell a person of this failure.
    pub open spec fn message_text(self) -> Seq<char> {
        match self {
            InventoryError::NotFound => "Product not found"@,
            InventoryError::Io(IoStage::Open) => "Unable to open file"@,
            InventoryError::Io(IoStage::Read) => "Error reading file"@,
            InventoryError::Io(IoStage::Create) => "Unable to create file"@,
            InventoryError::Io(IoStage::Write) => "Error writing to file"@,
            InventoryError::MalformedRecord => "Invalid file format"@,
            InventoryError::InvalidPrice => "Invalid price"@,
            InventoryError::InvalidQuantity => "Invalid quantity"@,
        }
    }

    /// The message for this failure.
    pub fn message(&self) -> (s: String)
        ensures
            s@ == self.message_text(),
    {
        match self {
            InventoryError::NotFound => String::from_str("Product not found"),
            InventoryError::Io(IoStage::Open) => String::from_str("Unable to open file"),
            InventoryError::Io(IoStage::Read) => String::from_str("Error reading file"),
            InventoryError::Io(IoStage::Create) => String::from_str("Unable to create file"),
            InventoryError::Io(IoStage::Write) => String::from_str("Error writing to file"),
            InventoryError::MalformedRecord => String::from_str("Invalid file format"),
            InventoryError::InvalidPrice => String::from_str("Invalid price"),
            InventoryError::InvalidQuantity => String::from_str("Invalid quantity"),
        }
    }
}

} // verus!
