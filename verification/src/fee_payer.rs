//! The argument that names who pays the fee.

use vstd::prelude::*;

verus! {

/// What a command line calls an argument, and what it says about it.
#[derive(Clone, Copy, Debug)]
pub struct ArgConstant {
    pub name: &'static str,
    pub long: &'static str,
    pub help: &'static str,
}

/// What stands for the argument's value.
pub const FEE_PAYER_VALUE_NAME: &'static str = "KEYPAIR";

/// The argument that names the account which pays the fee.
pub fn fee_payer_arg() -> (r: ArgConstant)
    ensures
        r.name@ == "fee_payer"@,
        r.long@ == "fee-payer"@,
        r.help@ == "Specify the fee-payer account. This may be a keypair file, the ASK keyword \nor the pubkey of an offline signer, provided an appropriate --signer argument \nis also passed. Defaults to the client keypair."@,
{
    ArgConstant {
        name: "fee_payer",
        long: "fee-payer",
        help: "Specify the fee-payer account. This may be a keypair file, the ASK keyword \nor the pubkey of an offline signer, provided an appropriate --signer argument \nis also passed. Defaults to the client keypair.",
    }
}

} // verus!
