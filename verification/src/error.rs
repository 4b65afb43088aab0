//! The errors of scanning.

use vstd::prelude::*;
use vstd::string::StringExecFns;

verus! {

/// Errors when scanning a block.
#[derive(Clone, Copy, PartialEq, Eq, Debug)]
pub enum ScanError {
    /// The block was for an unsupported protocol version.
    UnsupportedProtocol(u8),
    /// The ScannableBlock was invalid.
    InvalidScannableBlock(&'static str),
}

/// An error when scanning a block, over the characters of its message.
pub enum ScanFault {
    /// The block was for an unsupported protocol version.
    UnsupportedProtocol(u8),
    /// The ScannableBlock was invalid.
    InvalidScannableBlock(Seq<char>),
}

impl View for ScanError {
    type V = ScanFault;

    open spec fn view(&self) -> ScanFault {
        match *self {
            ScanError::UnsupportedProtocol(version) => ScanFault::UnsupportedProtocol(version),
            ScanError::InvalidScannableBlock(reason) => ScanFault::InvalidScannableBlock(reason@),
        }
    }
}

/// The decimal digits of an integer.
pub open spec fn decimal(n: nat) -> Seq<char>
    decreases n,
{
    let digit = "0123456789"@[(n % 10) as int];
    if n < 10 {
        seq![digit]
    } else {
        decimal(n / 10).push(digit)
    }
}

fn write_decimal(n: u8, to: String) -> (res: String)
    ensures
        res@ == to@ + decimal(n as nat),
    decreases n,
{
    proof {
        reveal_strlit("0123456789");
    }
    let high = if n < 10 {
        to
    } else {
        write_decimal(n / 10, to)
    };
    let low: usize = (n % 10) as usize;
    let digit = "0123456789".substring_ascii(low, low + 1);
    assert(digit@ =~= seq!["0123456789"@[low as int]]);
    let res = high.concat(digit);
    assert(res@ =~= to@ + decimal(n as nat));
    res
}

/// The message of an error.
pub open spec fn message_of(fault: ScanFault) -> Seq<char> {
    match fault {
        ScanFault::UnsupportedProtocol(version) => "unsupported protocol version ("@ + decimal(
            version as nat,
        ) + ")"@,
        ScanFault::InvalidScannableBlock(reason) => "invalid scannable block ("@ + reason + ")"@,
    }
}

impl ScanError {
    /// The message of this error.
    pub fn message(&self) -> (res: String)
        ensures
            res@ == message_of(self@),
    {
        match *self {
            ScanError::UnsupportedProtocol(version) => {
                let start = String::from_str("unsupported protocol version (");
                write_decimal(version, start).concat(")")
            },
            ScanError::InvalidScannableBlock(reason) => {
                String::from_str("invalid scannable block (").concat(reason).concat(")")
            },
        }
    }
}

} // verus!
